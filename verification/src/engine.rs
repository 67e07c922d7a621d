//! The convergence controller and per-pass build-unit tracker.
//!
//! One pass: run the build, decode its events, group the classified edits
//! by build unit in first-seen order, pick (or keep) the current unit, hand
//! that unit's files out to be patched, and fold the outcomes back in.  A
//! unit is finalized — its fix counts and residual errors reported, the
//! unit marked seen — when a pass changes none of its files or the retry
//! budget is spent.  A unit once seen is never selected or edited again.

use vstd::prelude::*;
use crate::patch::{copy_bytes, bytes_eq_slice};
use crate::suggest::{Diag, DiagV, PendingEdit, PendingEditV, Classified, classify, acceptable, flat_patches, all_same_file, has_replacement, is_protected, ProposalV, dirs_view};

verus! {

/// One buildable target within one package; the key that diagnostics are
/// grouped by.  Two units are the same exactly when both fields agree.
pub struct BuildUnit {
    pub target_name: Vec<u8>,
    pub package_id: Vec<u8>,
}

#[verifier::ext_equal]
pub struct UnitV {
    pub target_name: Seq<u8>,
    pub package_id: Seq<u8>,
}

impl View for BuildUnit {
    type V = UnitV;

    open spec fn view(&self) -> UnitV {
        UnitV { target_name: self.target_name@, package_id: self.package_id@ }
    }
}

/// One decoded line of the build tool's structured output.
pub enum Event {
    /// A diagnostic message attributed to a unit.
    Message { unit: BuildUnit, diag: Diag },
    /// A build-progress event; `fresh` means the unit had nothing to do.
    Artifact { unit: BuildUnit, fresh: bool },
}

#[verifier::ext_equal]
pub enum EventV {
    Message { unit: UnitV, diag: DiagV },
    Artifact { unit: UnitV, fresh: bool },
}

impl View for Event {
    type V = EventV;

    open spec fn view(&self) -> EventV {
        match self {
            Event::Message { unit, diag } => EventV::Message { unit: unit@, diag: diag@ },
            Event::Artifact { unit, fresh } => EventV::Artifact { unit: unit@, fresh: *fresh },
        }
    }
}

/// The accepted edits of one file, in discovery order.
pub struct FileEdits {
    pub file: Vec<u8>,
    pub edits: Vec<PendingEdit>,
}

#[verifier::ext_equal]
pub struct FileEditsV {
    pub file: Seq<u8>,
    pub edits: Seq<PendingEditV>,
}

impl View for FileEdits {
    type V = FileEditsV;

    open spec fn view(&self) -> FileEditsV {
        FileEditsV { file: self.file@, edits: self.edits@.map_values(|e: PendingEdit| e@) }
    }
}

/// Everything one pass collected for one not-yet-seen unit: accepted edits
/// grouped by file, and the rejected diagnostics' rendered text.
pub struct UnitEntry {
    pub unit: BuildUnit,
    pub files: Vec<FileEdits>,
    pub errors: Vec<Vec<u8>>,
}

#[verifier::ext_equal]
pub struct UnitEntryV {
    pub unit: UnitV,
    pub files: Seq<FileEditsV>,
    pub errors: Seq<Seq<u8>>,
}

impl View for UnitEntry {
    type V = UnitEntryV;

    open spec fn view(&self) -> UnitEntryV {
        UnitEntryV {
            unit: self.unit@,
            files: self.files@.map_values(|f: FileEdits| f@),
            errors: self.errors@.map_values(|e: Vec<u8>| e@),
        }
    }
}

/// A file's running fix count.
pub struct FileCount {
    pub file: Vec<u8>,
    pub fixes: u64,
}

#[verifier::ext_equal]
pub struct FileCountV {
    pub file: Seq<u8>,
    pub fixes: int,
}

impl View for FileCount {
    type V = FileCountV;

    open spec fn view(&self) -> FileCountV {
        FileCountV { file: self.file@, fixes: self.fixes as int }
    }
}

/// What to tell the user when a unit is finalized.
pub struct UnitReport {
    /// The package to announce, the first time one of its units is touched.
    pub announce: Option<Vec<u8>>,
    /// Per-file fix counts to flush.
    pub fixed: Vec<FileCount>,
    /// Diagnostic text never resolved, to print verbatim.
    pub residual: Vec<Vec<u8>>,
}

#[verifier::ext_equal]
pub struct UnitReportV {
    pub announce: Option<Seq<u8>>,
    pub fixed: Seq<FileCountV>,
    pub residual: Seq<Seq<u8>>,
}

impl View for UnitReport {
    type V = UnitReportV;

    open spec fn view(&self) -> UnitReportV {
        UnitReportV {
            announce: match self.announce {
                Some(ref p) => Some(p@),
                None => None,
            },
            fixed: self.fixed@.map_values(|f: FileCount| f@),
            residual: self.residual@.map_values(|e: Vec<u8>| e@),
        }
    }
}

/// What one pass asks the caller to do.
pub struct PassPlan {
    /// Units finalized while reading the pass's events.
    pub reports: Vec<UnitReport>,
    /// The current unit's files and their edits; apply and report back.
    pub work: Vec<FileEdits>,
}

/// What one pass concluded.
pub struct PassResult {
    /// Units finalized at the end of the pass.
    pub reports: Vec<UnitReport>,
    /// The run is over: no current unit and nothing new to select.
    pub done: bool,
}

/// What one file's patching reported back to the controller.
pub struct FileReportIn {
    pub file: Vec<u8>,
    pub modified: bool,
    pub fixes: u64,
    pub errors: Vec<Vec<u8>>,
}

#[verifier::ext_equal]
pub struct FileReportInV {
    pub file: Seq<u8>,
    pub modified: bool,
    pub fixes: int,
    pub errors: Seq<Seq<u8>>,
}

impl View for FileReportIn {
    type V = FileReportInV;

    open spec fn view(&self) -> FileReportInV {
        FileReportInV {
            file: self.file@,
            modified: self.modified,
            fixes: self.fixes as int,
            errors: self.errors@.map_values(|e: Vec<u8>| e@),
        }
    }
}

pub open spec fn units_view(s: Seq<BuildUnit>) -> Seq<UnitV> {
    s.map_values(|u: BuildUnit| u@)
}

pub open spec fn entries_view(s: Seq<UnitEntry>) -> Seq<UnitEntryV> {
    s.map_values(|e: UnitEntry| e@)
}

pub open spec fn events_view(s: Seq<Event>) -> Seq<EventV> {
    s.map_values(|e: Event| e@)
}

pub open spec fn errors_view(s: Seq<Vec<u8>>) -> Seq<Seq<u8>> {
    s.map_values(|e: Vec<u8>| e@)
}

pub open spec fn files_view(s: Seq<FileEdits>) -> Seq<FileEditsV> {
    s.map_values(|f: FileEdits| f@)
}

pub open spec fn counts_view(s: Seq<FileCount>) -> Seq<FileCountV> {
    s.map_values(|f: FileCount| f@)
}

pub open spec fn reports_view(s: Seq<UnitReport>) -> Seq<UnitReportV> {
    s.map_values(|r: UnitReport| r@)
}

pub open spec fn freports_view(s: Seq<FileReportIn>) -> Seq<FileReportInV> {
    s.map_values(|r: FileReportIn| r@)
}

pub open spec fn seen_has(seen: Seq<UnitV>, u: UnitV) -> bool {
    exists|i: int| 0 <= i < seen.len() && seen[i] == u
}

pub open spec fn pkg_seen(seen: Seq<UnitV>, pkg: Seq<u8>) -> bool {
    exists|i: int| 0 <= i < seen.len() && (#[trigger] seen[i]).package_id == pkg
}

pub open spec fn has_unit(acc: Seq<UnitEntryV>, u: UnitV) -> bool {
    exists|i: int| 0 <= i < acc.len() && (#[trigger] acc[i]).unit == u
}

pub open spec fn has_file(files: Seq<FileEditsV>, f: Seq<u8>) -> bool {
    exists|i: int| 0 <= i < files.len() && (#[trigger] files[i]).file == f
}

pub open spec fn has_error(errs: Seq<Seq<u8>>, t: Seq<u8>) -> bool {
    exists|i: int| 0 <= i < errs.len() && errs[i] == t
}

pub open spec fn has_count(cs: Seq<FileCountV>, f: Seq<u8>) -> bool {
    exists|i: int| 0 <= i < cs.len() && (#[trigger] cs[i]).file == f
}

/// No two entries are for the same unit, and within one entry no two file
/// slots name the same file.
pub open spec fn entries_wf(acc: Seq<UnitEntryV>) -> bool {
    &&& forall|i: int, j: int|
        0 <= i < j < acc.len() ==> (#[trigger] acc[i]).unit != (#[trigger] acc[j]).unit
    &&& forall|i: int| 0 <= i < acc.len() ==> files_unique((#[trigger] acc[i]).files)
}

pub open spec fn files_unique(files: Seq<FileEditsV>) -> bool {
    forall|i: int, j: int|
        0 <= i < j < files.len() ==> (#[trigger] files[i]).file != (#[trigger] files[j]).file
}

pub open spec fn counts_unique(cs: Seq<FileCountV>) -> bool {
    forall|i: int, j: int|
        0 <= i < j < cs.len() ==> (#[trigger] cs[i]).file != (#[trigger] cs[j]).file
}

/// `errs` with `t` appended unless an equal text is already there.
pub open spec fn push_unique_spec(errs: Seq<Seq<u8>>, t: Seq<u8>) -> Seq<Seq<u8>> {
    if has_error(errs, t) {
        errs
    } else {
        errs.push(t)
    }
}

/// `acc` with an (empty) entry for `u` appended unless one exists.
pub open spec fn ensure_entry(acc: Seq<UnitEntryV>, u: UnitV) -> Seq<UnitEntryV> {
    if has_unit(acc, u) {
        acc
    } else {
        acc.push(UnitEntryV { unit: u, files: Seq::empty(), errors: Seq::empty() })
    }
}

/// The file already holds a byte-identical pending edit.
pub open spec fn has_edit(edits: Seq<PendingEditV>, e: PendingEditV) -> bool {
    exists|i: int| 0 <= i < edits.len() && edits[i] == e
}

/// Record the edit under its file; a byte-identical (edit, rendered) pair
/// already collected for that file is kept once.
pub open spec fn entry_with_edit(ent: UnitEntryV, f: Seq<u8>, e: PendingEditV) -> UnitEntryV {
    if has_file(ent.files, f) {
        UnitEntryV {
            unit: ent.unit,
            files: ent.files.map_values(
                |fe: FileEditsV|
                    if fe.file == f {
                        if has_edit(fe.edits, e) {
                            fe
                        } else {
                            FileEditsV { file: fe.file, edits: fe.edits.push(e) }
                        }
                    } else {
                        fe
                    },
            ),
            errors: ent.errors,
        }
    } else {
        UnitEntryV {
            unit: ent.unit,
            files: ent.files.push(FileEditsV { file: f, edits: seq![e] }),
            errors: ent.errors,
        }
    }
}

pub open spec fn entry_with_error(ent: UnitEntryV, t: Seq<u8>) -> UnitEntryV {
    UnitEntryV { unit: ent.unit, files: ent.files, errors: push_unique_spec(ent.errors, t) }
}

/// Record an accepted edit for file `f` of unit `u`.
pub open spec fn add_edit(acc: Seq<UnitEntryV>, u: UnitV, f: Seq<u8>, e: PendingEditV) -> Seq<
    UnitEntryV,
> {
    ensure_entry(acc, u).map_values(
        |ent: UnitEntryV|
            if ent.unit == u {
                entry_with_edit(ent, f, e)
            } else {
                ent
            },
    )
}

/// Record a rejected diagnostic's text for unit `u`.
pub open spec fn add_error(acc: Seq<UnitEntryV>, u: UnitV, t: Seq<u8>) -> Seq<UnitEntryV> {
    ensure_entry(acc, u).map_values(
        |ent: UnitEntryV|
            if ent.unit == u {
                entry_with_error(ent, t)
            } else {
                ent
            },
    )
}

/// The single file named by an acceptable suggestion.
pub open spec fn accepted_file(s: ProposalV, dirs: Seq<Seq<u8>>) -> Seq<u8> {
    choose|f: Seq<u8>| all_same_file(s, f) && !is_protected(f, dirs)
}

/// How one event changes the pass's per-unit table.  Events of seen units
/// are ignored; a non-fresh progress event opens an entry; a message's
/// edit is recorded under its one file when acceptable, else its rendered
/// text is kept as a plain error.
pub open spec fn collect_step(
    acc: Seq<UnitEntryV>,
    ev: EventV,
    seen: Seq<UnitV>,
    dirs: Seq<Seq<u8>>,
) -> Seq<UnitEntryV> {
    match ev {
        EventV::Artifact { unit, fresh } => if !fresh && !seen_has(seen, unit) {
            ensure_entry(acc, unit)
        } else {
            acc
        },
        EventV::Message { unit, diag } => if seen_has(seen, unit) {
            acc
        } else {
            match diag.suggestion {
                Some(s) => if acceptable(s, dirs) {
                    add_edit(
                        acc,
                        unit,
                        accepted_file(s, dirs),
                        PendingEditV {
                            patches: flat_patches(s.solutions),
                            rendered: diag.rendered,
                        },
                    )
                } else {
                    match diag.rendered {
                        Some(t) => add_error(acc, unit, t),
                        None => ensure_entry(acc, unit),
                    }
                },
                None => match diag.rendered {
                    Some(t) => add_error(acc, unit, t),
                    None => ensure_entry(acc, unit),
                },
            }
        },
    }
}

/// The per-unit table a whole pass of events builds, in first-seen order.
pub open spec fn collect_events(
    events: Seq<EventV>,
    seen: Seq<UnitV>,
    dirs: Seq<Seq<u8>>,
) -> Seq<UnitEntryV>
    decreases events.len(),
{
    if events.len() == 0 {
        Seq::empty()
    } else {
        collect_step(collect_events(events.drop_last(), seen, dirs), events.last(), seen, dirs)
    }
}

/// An acceptable suggestion names exactly one file.
pub proof fn lemma_accepted_file_unique(s: ProposalV, dirs: Seq<Seq<u8>>, f: Seq<u8>)
    requires
        has_replacement(s),
        all_same_file(s, f),
        !is_protected(f, dirs),
    ensures
        accepted_file(s, dirs) == f,
{
    let i = choose|i: int|
        0 <= i < s.solutions.len() && (#[trigger] s.solutions[i]).replacements.len() > 0;
    let g = accepted_file(s, dirs);
    assert(all_same_file(s, g) && !is_protected(g, dirs));
    assert(s.solutions[i].replacements[0].file_name == f);
    assert(s.solutions[i].replacements[0].file_name == g);
}

/// One step keeps the table well formed, keeps its units unseen, and only
/// ever appends entries.
pub proof fn lemma_step_invariants(
    acc: Seq<UnitEntryV>,
    ev: EventV,
    seen: Seq<UnitV>,
    dirs: Seq<Seq<u8>>,
)
    requires
        entries_wf(acc),
        forall|i: int| 0 <= i < acc.len() ==> !seen_has(seen, (#[trigger] acc[i]).unit),
    ensures
        entries_wf(collect_step(acc, ev, seen, dirs)),
        forall|i: int|
            0 <= i < collect_step(acc, ev, seen, dirs).len() ==> !seen_has(
                seen,
                (#[trigger] collect_step(acc, ev, seen, dirs)[i]).unit,
            ),
{
    let r = collect_step(acc, ev, seen, dirs);
    match ev {
        EventV::Artifact { unit, fresh } => {},
        EventV::Message { unit, diag } => {
            if !seen_has(seen, unit) {
                let acc1 = ensure_entry(acc, unit);
                assert(entries_wf(acc1));
                assert(forall|i: int|
                    0 <= i < acc1.len() ==> !seen_has(seen, (#[trigger] acc1[i]).unit));
                assert(forall|i: int| 0 <= i < r.len() ==> r[i].unit == acc1[i].unit);
                assert forall|i: int| 0 <= i < r.len() implies files_unique(
                    (#[trigger] r[i]).files,
                ) by {
                    assert(files_unique(acc1[i].files));
                    if r[i] != acc1[i] {
                        let ent = acc1[i];
                        match diag.suggestion {
                            Some(s) => {
                                if acceptable(s, dirs) {
                                    let f = accepted_file(s, dirs);
                                    if has_file(ent.files, f) {
                                        assert(forall|a: int|
                                            0 <= a < ent.files.len()
                                                ==> (#[trigger] entry_with_edit(
                                                ent,
                                                f,
                                                flat_edit(s, diag.rendered),
                                            ).files[a]).file == ent.files[a].file);
                                    }
                                }
                            },
                            None => {},
                        }
                    }
                }
            }
        },
    }
}

/// The edit a message's acceptable suggestion contributes.
pub open spec fn flat_edit(s: ProposalV, rendered: Option<Seq<u8>>) -> PendingEditV {
    PendingEditV { patches: flat_patches(s.solutions), rendered }
}

pub proof fn lemma_collect_invariants(events: Seq<EventV>, seen: Seq<UnitV>, dirs: Seq<Seq<u8>>)
    ensures
        entries_wf(collect_events(events, seen, dirs)),
        forall|i: int|
            0 <= i < collect_events(events, seen, dirs).len() ==> !seen_has(
                seen,
                (#[trigger] collect_events(events, seen, dirs)[i]).unit,
            ),
    decreases events.len(),
{
    if events.len() == 0 {
    } else {
        lemma_collect_invariants(events.drop_last(), seen, dirs);
        lemma_step_invariants(
            collect_events(events.drop_last(), seen, dirs),
            events.last(),
            seen,
            dirs,
        );
    }
}

/// Whether two units are the same.
pub fn unit_eq(a: &BuildUnit, b: &BuildUnit) -> (r: bool)
    ensures
        r == (a@ == b@),
{
    let r = bytes_eq_slice(&a.target_name, &b.target_name) && bytes_eq_slice(
        &a.package_id,
        &b.package_id,
    );
    proof {
        if a.target_name@ == b.target_name@ && a.package_id@ == b.package_id@ {
            assert(a@ =~= b@);
        }
    }
    r
}

/// A copy of a unit.
pub fn unit_copy(u: &BuildUnit) -> (r: BuildUnit)
    ensures
        r@ == u@,
{
    let r = BuildUnit {
        target_name: copy_bytes(&u.target_name),
        package_id: copy_bytes(&u.package_id),
    };
    proof {
        assert(r@ =~= u@);
    }
    r
}

/// Whether `seen` holds `u`.
pub fn contains_unit(seen: &Vec<BuildUnit>, u: &BuildUnit) -> (r: bool)
    ensures
        r == seen_has(units_view(seen@), u@),
{
    let mut i: usize = 0;
    while i < seen.len()
        invariant
            0 <= i <= seen.len(),
            forall|j: int| 0 <= j < i ==> units_view(seen@)[j] != u@,
        decreases seen.len() - i,
    {
        if unit_eq(&seen[i], u) {
            assert(units_view(seen@)[i as int] == u@);
            return true;
        }
        i += 1;
    }
    false
}

/// Append `t` to `errs` unless an equal text is already there.
pub fn push_unique(errs: &mut Vec<Vec<u8>>, t: Vec<u8>)
    ensures
        errors_view(final(errs)@) == push_unique_spec(errors_view(old(errs)@), t@),
{
    let mut i: usize = 0;
    while i < errs.len()
        invariant
            0 <= i <= errs.len(),
            *errs == *old(errs),
            forall|j: int| 0 <= j < i ==> errors_view(errs@)[j] != t@,
        decreases errs.len() - i,
    {
        if bytes_eq_slice(&errs[i], &t) {
            assert(errors_view(errs@)[i as int] == t@);
            assert(has_error(errors_view(errs@), t@));
            return ;
        }
        i += 1;
    }
    assert(!has_error(errors_view(errs@), t@));
    errs.push(t);
    proof {
        assert(errors_view(errs@) =~= push_unique_spec(errors_view(old(errs)@), t@));
    }
}

/// Find the entry of unit `u`.
fn find_entry(acc: &Vec<UnitEntry>, u: &BuildUnit) -> (r: Option<usize>)
    ensures
        match r {
            Some(i) => i < acc@.len() && entries_view(acc@)[i as int].unit == u@,
            None => !has_unit(entries_view(acc@), u@),
        },
{
    let mut i: usize = 0;
    while i < acc.len()
        invariant
            0 <= i <= acc.len(),
            forall|j: int| 0 <= j < i ==> (#[trigger] entries_view(acc@)[j]).unit != u@,
        decreases acc.len() - i,
    {
        if unit_eq(&acc[i].unit, u) {
            assert(entries_view(acc@)[i as int].unit == u@);
            return Some(i);
        }
        i += 1;
    }
    None
}

/// Whether the file's list already holds a byte-identical edit.
fn has_edit_exec(edits: &Vec<PendingEdit>, e: &PendingEdit) -> (r: bool)
    ensures
        r == has_edit(edits@.map_values(|x: PendingEdit| x@), e@),
{
    let ghost edsv = edits@.map_values(|x: PendingEdit| x@);
    let mut i: usize = 0;
    while i < edits.len()
        invariant
            0 <= i <= edits.len(),
            edsv == edits@.map_values(|x: PendingEdit| x@),
            forall|j: int| 0 <= j < i ==> edsv[j] != e@,
        decreases edits.len() - i,
    {
        if crate::suggest::pending_edit_eq(&edits[i], e) {
            assert(edsv[i as int] == e@);
            return true;
        }
        i += 1;
    }
    false
}

/// Find the slot of file `f`.
fn find_file(files: &Vec<FileEdits>, f: &Vec<u8>) -> (r: Option<usize>)
    ensures
        match r {
            Some(i) => i < files@.len() && files_view(files@)[i as int].file == f@,
            None => !has_file(files_view(files@), f@),
        },
{
    let mut i: usize = 0;
    while i < files.len()
        invariant
            0 <= i <= files.len(),
            forall|j: int| 0 <= j < i ==> (#[trigger] files_view(files@)[j]).file != f@,
        decreases files.len() - i,
    {
        if bytes_eq_slice(&files[i].file, f) {
            assert(files_view(files@)[i as int].file == f@);
            return Some(i);
        }
        i += 1;
    }
    None
}

/// Open an (empty) entry for `unit` unless one exists.
fn ensure_entry_exec(acc: &mut Vec<UnitEntry>, unit: BuildUnit)
    ensures
        entries_view(final(acc)@) == ensure_entry(entries_view(old(acc)@), unit@),
{
    let ghost acc0 = entries_view(acc@);
    match find_entry(acc, &unit) {
        Some(_) => {
            assert(has_unit(acc0, unit@));
        },
        None => {
            let ghost uv = unit@;
            acc.push(UnitEntry { unit, files: Vec::new(), errors: Vec::new() });
            proof {
                assert(entries_view(acc@) =~~= ensure_entry(acc0, uv));
            }
        },
    }
}

/// Record an accepted edit for file `f` of `unit`.
fn add_edit_exec(acc: &mut Vec<UnitEntry>, unit: &BuildUnit, f: Vec<u8>, e: PendingEdit)
    requires
        entries_wf(entries_view(old(acc)@)),
    ensures
        entries_view(final(acc)@) == add_edit(entries_view(old(acc)@), unit@, f@, e@),
{
    let ghost acc0 = entries_view(acc@);
    let ghost fv = f@;
    let ghost ev = e@;
    let idx: usize = match find_entry(acc, unit) {
        Some(i) => i,
        None => {
            acc.push(UnitEntry { unit: unit_copy(unit), files: Vec::new(), errors: Vec::new() });
            proof {
                assert(entries_view(acc@) =~~= ensure_entry(acc0, unit@));
            }
            acc.len() - 1
        },
    };
    let ghost acc1 = ensure_entry(acc0, unit@);
    proof {
        if has_unit(acc0, unit@) {
            assert(acc1 == acc0);
        }
        assert(entries_view(acc@) == acc1);
        assert(entries_view(acc@)[idx as int].unit == unit@);
    }
    let mut ent = acc.remove(idx);
    let ghost entv = acc1[idx as int];
    proof {
        assert(ent@ == entv);
    }
    match find_file(&ent.files, &f) {
        Some(fi) => {
            let mut fe = ent.files.remove(fi);
            if !has_edit_exec(&fe.edits, &e) {
                fe.edits.push(e);
                proof {
                    assert(fe@ =~~= (FileEditsV {
                        file: entv.files[fi as int].file,
                        edits: entv.files[fi as int].edits.push(ev),
                    }));
                }
            } else {
                proof {
                    assert(has_edit(entv.files[fi as int].edits, ev));
                    assert(fe@ =~~= entv.files[fi as int]);
                }
            }
            ent.files.insert(fi, fe);
            proof {
                // The slot names `f`; every other slot names another file,
                // so the spec-level map touches only this slot.
                assert(has_file(entv.files, fv));
                assert(files_unique(entv.files)) by {
                    if has_unit(acc0, unit@) {
                        let j = choose|j: int| 0 <= j < acc0.len() && acc0[j].unit == unit@;
                        assert(entries_wf(acc0));
                    }
                }
                assert(entv.files[fi as int].file == fv);
                assert(forall|j: int|
                    0 <= j < entv.files.len() && j != fi ==> (#[trigger] entv.files[j]).file
                        != fv);
                assert(ent@ =~~= entry_with_edit(entv, fv, ev));
            }
        },
        None => {
            let mut edits: Vec<PendingEdit> = Vec::new();
            edits.push(e);
            ent.files.push(FileEdits { file: f, edits });
            proof {
                assert(ent@.files =~~= entv.files.push(FileEditsV { file: fv, edits: seq![ev] }));
                assert(ent@ =~~= entry_with_edit(entv, fv, ev));
            }
        },
    }
    acc.insert(idx, ent);
    proof {
        let res = add_edit(acc0, unit@, fv, ev);
        assert(res.len() == acc1.len());
        assert forall|j: int| 0 <= j < acc1.len() implies res[j] == entries_view(acc@)[j] by {
            if j == idx {
                assert(res[j] == entry_with_edit(acc1[j], fv, ev));
            } else {
                assert(acc1[j].unit != unit@) by {
                    assert(entries_wf(acc1)) by {
                        lemma_ensure_entry_wf(acc0, unit@);
                    }
                }
                assert(res[j] == acc1[j]);
            }
        }
        assert(entries_view(acc@) =~~= res);
    }
}

/// Record a rejected diagnostic's text for `unit`.
fn add_error_exec(acc: &mut Vec<UnitEntry>, unit: &BuildUnit, t: Vec<u8>)
    requires
        entries_wf(entries_view(old(acc)@)),
    ensures
        entries_view(final(acc)@) == add_error(entries_view(old(acc)@), unit@, t@),
{
    let ghost acc0 = entries_view(acc@);
    let ghost tv = t@;
    let idx: usize = match find_entry(acc, unit) {
        Some(i) => i,
        None => {
            acc.push(UnitEntry { unit: unit_copy(unit), files: Vec::new(), errors: Vec::new() });
            proof {
                assert(entries_view(acc@) =~~= ensure_entry(acc0, unit@));
            }
            acc.len() - 1
        },
    };
    let ghost acc1 = ensure_entry(acc0, unit@);
    proof {
        if has_unit(acc0, unit@) {
            assert(acc1 == acc0);
        }
        assert(entries_view(acc@) == acc1);
        assert(entries_view(acc@)[idx as int].unit == unit@);
    }
    let mut ent = acc.remove(idx);
    let ghost entv = acc1[idx as int];
    proof {
        assert(ent@ == entv);
    }
    push_unique(&mut ent.errors, t);
    proof {
        assert(ent@ =~~= entry_with_error(entv, tv));
    }
    acc.insert(idx, ent);
    proof {
        let res = add_error(acc0, unit@, tv);
        assert(res.len() == acc1.len());
        assert forall|j: int| 0 <= j < acc1.len() implies res[j] == entries_view(acc@)[j] by {
            if j == idx {
                assert(res[j] == entry_with_error(acc1[j], tv));
            } else {
                assert(acc1[j].unit != unit@) by {
                    assert(entries_wf(acc1)) by {
                        lemma_ensure_entry_wf(acc0, unit@);
                    }
                }
                assert(res[j] == acc1[j]);
            }
        }
        assert(entries_view(acc@) =~~= res);
    }
}

/// Opening an entry keeps the table well formed.
pub proof fn lemma_ensure_entry_wf(acc: Seq<UnitEntryV>, u: UnitV)
    requires
        entries_wf(acc),
    ensures
        entries_wf(ensure_entry(acc, u)),
{
    if !has_unit(acc, u) {
        let r = ensure_entry(acc, u);
        assert forall|i: int, j: int| 0 <= i < j < r.len() implies (#[trigger] r[i]).unit
            != (#[trigger] r[j]).unit by {
            if j == acc.len() {
                assert(!has_unit(acc, u));
                assert(r[i] == acc[i]);
            }
        }
    }
}

/// Fold one event into the pass's per-unit table.
fn collect_one(acc: &mut Vec<UnitEntry>, ev: Event, seen: &Vec<BuildUnit>, dirs: &Vec<Vec<u8>>)
    requires
        entries_wf(entries_view(old(acc)@)),
    ensures
        entries_view(final(acc)@) == collect_step(
            entries_view(old(acc)@),
            ev@,
            units_view(seen@),
            dirs_view(dirs@),
        ),
{
    let ghost dirsv = dirs_view(dirs@);
    match ev {
        Event::Artifact { unit, fresh } => {
            if !fresh && !contains_unit(seen, &unit) {
                ensure_entry_exec(acc, unit);
            }
        },
        Event::Message { unit, diag } => {
            if contains_unit(seen, &unit) {
                return ;
            }
            let ghost diagv = diag@;
            match classify(diag, dirs) {
                Classified::Accepted { file, edit } => {
                    proof {
                        let s = diagv.suggestion->Some_0;
                        lemma_accepted_file_unique(s, dirsv, file@);
                    }
                    add_edit_exec(acc, &unit, file, edit);
                },
                Classified::Rejected { rendered } => {
                    match rendered {
                        Some(t) => {
                            add_error_exec(acc, &unit, t);
                        },
                        None => {
                            ensure_entry_exec(acc, unit);
                        },
                    }
                },
            }
        },
    }
}

/// Group one pass's events by unit, in first-seen order, skipping units
/// already seen; classify each diagnostic on the way.
pub fn collect(events: Vec<Event>, seen: &Vec<BuildUnit>, dirs: &Vec<Vec<u8>>) -> (r: Vec<
    UnitEntry,
>)
    ensures
        entries_view(r@) == collect_events(
            events_view(events@),
            units_view(seen@),
            dirs_view(dirs@),
        ),
{
    let ghost evs = events_view(events@);
    let ghost seenv = units_view(seen@);
    let ghost dirsv = dirs_view(dirs@);
    let mut rest = events;
    let mut acc: Vec<UnitEntry> = Vec::new();
    while rest.len() > 0
        invariant
            rest@.len() <= evs.len(),
            events_view(rest@) == evs.subrange(evs.len() - rest@.len(), evs.len() as int),
            entries_view(acc@) == collect_events(evs.take(evs.len() - rest@.len()), seenv, dirsv),
        decreases rest@.len(),
    {
        let ghost k = evs.len() - rest@.len();
        let ghost restv0 = rest@;
        let ev = rest.remove(0);
        proof {
            assert(rest@ =~= restv0.subrange(1, restv0.len() as int));
            assert(events_view(restv0)[0] == evs[k]);
            assert(ev@ == evs[k]);
            assert forall|j: int| 0 <= j < rest@.len() implies events_view(rest@)[j] == evs[k + 1
                + j] by {
                assert(events_view(rest@)[j] == rest@[j]@);
                assert(rest@[j] == restv0[j + 1]);
                assert(events_view(restv0)[j + 1] == restv0[j + 1]@);
                assert(events_view(restv0)[j + 1] == evs.subrange(k, evs.len() as int)[j + 1]);
            }
            assert(events_view(rest@) =~= evs.subrange(k + 1, evs.len() as int));
            lemma_collect_invariants(evs.take(k), seenv, dirsv);
        }
        collect_one(&mut acc, ev, seen, dirs);
        proof {
            assert(evs.take(k + 1).drop_last() =~= evs.take(k));
            assert(evs.take(k + 1).last() == evs[k]);
        }
    }
    proof {
        assert(evs.take(evs.len() as int) =~= evs);
    }
    acc
}

/// The whole engine state threaded through the run.
pub struct Engine {
    pub max_iterations: u64,
    pub iteration: u64,
    pub current: Option<BuildUnit>,
    pub seen: Vec<BuildUnit>,
    pub files: Vec<FileCount>,
    pub pending: Vec<UnitEntry>,
}

#[verifier::ext_equal]
pub struct EngineV {
    pub max_iterations: int,
    pub iteration: int,
    pub current: Option<UnitV>,
    pub seen: Seq<UnitV>,
    pub files: Seq<FileCountV>,
    pub pending: Seq<UnitEntryV>,
}

pub open spec fn opt_unit_view(o: Option<BuildUnit>) -> Option<UnitV> {
    match o {
        Some(u) => Some(u@),
        None => None,
    }
}

impl View for Engine {
    type V = EngineV;

    open spec fn view(&self) -> EngineV {
        EngineV {
            max_iterations: self.max_iterations as int,
            iteration: self.iteration as int,
            current: opt_unit_view(self.current),
            seen: units_view(self.seen@),
            files: counts_view(self.files@),
            pending: entries_view(self.pending@),
        }
    }
}

/// The engine's invariant: the retry counter never passes the budget and is
/// zero between units; the pending table and the fix counts are keyed
/// uniquely.
pub open spec fn engine_wf(e: EngineV) -> bool {
    &&& 0 <= e.iteration <= e.max_iterations
    &&& e.current is None ==> e.iteration == 0
    &&& entries_wf(e.pending)
    &&& counts_unique(e.files)
}

/// The package id to announce: only the first time any unit of the package
/// is finalized.
pub open spec fn announce_spec(seen: Seq<UnitV>, pkg: Seq<u8>) -> Option<Seq<u8>> {
    if pkg_seen(seen, pkg) {
        None
    } else {
        Some(pkg)
    }
}

pub open spec fn entry_index(acc: Seq<UnitEntryV>, u: UnitV) -> int {
    choose|i: int| 0 <= i < acc.len() && acc[i].unit == u
}

pub open spec fn errors_of(acc: Seq<UnitEntryV>, u: UnitV) -> Seq<Seq<u8>> {
    if has_unit(acc, u) {
        acc[entry_index(acc, u)].errors
    } else {
        Seq::empty()
    }
}

pub open spec fn files_of(acc: Seq<UnitEntryV>, u: UnitV) -> Seq<FileEditsV> {
    if has_unit(acc, u) {
        acc[entry_index(acc, u)].files
    } else {
        Seq::empty()
    }
}

/// Fold the rendered texts of a file's still-pending edits into the error
/// list, in discovery order, keeping each text once.
pub open spec fn renders_into(errs: Seq<Seq<u8>>, edits: Seq<PendingEditV>) -> Seq<Seq<u8>>
    decreases edits.len(),
{
    if edits.len() == 0 {
        errs
    } else {
        let e1 = renders_into(errs, edits.drop_last());
        match edits.last().rendered {
            Some(t) => push_unique_spec(e1, t),
            None => e1,
        }
    }
}

pub open spec fn renders_files_into(errs: Seq<Seq<u8>>, files: Seq<FileEditsV>) -> Seq<Seq<u8>>
    decreases files.len(),
{
    if files.len() == 0 {
        errs
    } else {
        renders_into(renders_files_into(errs, files.drop_last()), files.last().edits)
    }
}

/// The retry budget is spent for the unit in flight.
pub open spec fn cap_hits(e: EngineV) -> bool {
    e.current is Some && e.iteration >= e.max_iterations
}

/// The engine after finalizing the capped unit.
pub open spec fn cap_state(e: EngineV) -> EngineV {
    if cap_hits(e) {
        EngineV {
            max_iterations: e.max_iterations,
            iteration: 0,
            current: None,
            seen: e.seen.push(e.current->Some_0),
            files: Seq::empty(),
            pending: e.pending,
        }
    } else {
        e
    }
}

/// The report the capped unit gets: its buffered fix counts, and its pass
/// errors together with the rendered texts of the edits left unapplied.
pub open spec fn cap_report(e: EngineV, entries: Seq<UnitEntryV>) -> Seq<UnitReportV> {
    if cap_hits(e) {
        let u = e.current->Some_0;
        seq![
            UnitReportV {
                announce: announce_spec(e.seen, u.package_id),
                fixed: e.files,
                residual: renders_files_into(errors_of(entries, u), files_of(entries, u)),
            },
        ]
    } else {
        Seq::empty()
    }
}

/// The state a pass's scan of the per-unit table threads along.
#[verifier::ext_equal]
pub struct ScanV {
    pub current: Option<UnitV>,
    pub seen: Seq<UnitV>,
    pub pending: Seq<UnitEntryV>,
    pub reports: Seq<UnitReportV>,
    pub work: Seq<FileEditsV>,
}

/// How one entry of the table is treated.  A seen unit is dropped.  While
/// no unit is current, a unit with no edits is finalized on the spot.  The
/// first unit with edits becomes (or matches) the current unit and its
/// files become the pass's work; everything else stays pending, untouched.
pub open spec fn scan_step(st: ScanV, ent: UnitEntryV) -> ScanV {
    if seen_has(st.seen, ent.unit) {
        st
    } else if st.current is None && ent.files.len() == 0 {
        ScanV {
            current: st.current,
            seen: st.seen.push(ent.unit),
            pending: st.pending,
            reports: st.reports.push(
                UnitReportV {
                    announce: announce_spec(st.seen, ent.unit.package_id),
                    fixed: Seq::empty(),
                    residual: ent.errors,
                },
            ),
            work: st.work,
        }
    } else if ent.files.len() > 0 && (st.current is None || st.current == Some(ent.unit)) {
        ScanV {
            current: Some(ent.unit),
            seen: st.seen,
            pending: st.pending.push(
                UnitEntryV { unit: ent.unit, files: Seq::empty(), errors: ent.errors },
            ),
            reports: st.reports,
            work: ent.files,
        }
    } else {
        ScanV {
            current: st.current,
            seen: st.seen,
            pending: st.pending.push(ent),
            reports: st.reports,
            work: st.work,
        }
    }
}

pub open spec fn scan_rest(st: ScanV, entries: Seq<UnitEntryV>) -> ScanV
    decreases entries.len(),
{
    if entries.len() == 0 {
        st
    } else {
        scan_rest(scan_step(st, entries.first()), entries.drop_first())
    }
}

/// Everything begin_pass decides, as a function of the old state and the
/// pass's events.
pub open spec fn begin_spec(e: EngineV, events: Seq<EventV>, dirs: Seq<Seq<u8>>) -> ScanV {
    let entries = collect_events(events, e.seen, dirs);
    let e1 = cap_state(e);
    scan_rest(
        ScanV {
            current: e1.current,
            seen: e1.seen,
            pending: Seq::empty(),
            reports: cap_report(e, entries),
            work: Seq::empty(),
        },
        entries,
    )
}

/// Scanning entries that are unit-distinct from each other and from what is
/// already pending keeps the pending table well formed.
pub proof fn lemma_scan_wf(st: ScanV, entries: Seq<UnitEntryV>)
    requires
        entries_wf(st.pending + entries),
    ensures
        entries_wf(scan_rest(st, entries).pending),
    decreases entries.len(),
{
    if entries.len() == 0 {
        assert(st.pending + entries =~= st.pending);
    } else {
        let ent = entries.first();
        let st1 = scan_step(st, ent);
        assert(forall|i: int| 0 <= i < st.pending.len() ==> (st.pending + entries)[i] == st.pending[i]);
        assert(forall|i: int|
            0 <= i < entries.len() ==> (st.pending + entries)[st.pending.len() + i] == entries[i]);
        if seen_has(st.seen, ent.unit) || (st.current is None && ent.files.len() == 0) {
            assert(st1.pending + entries.drop_first() =~= st.pending + entries.drop_first());
            assert(entries_wf(st1.pending + entries.drop_first())) by {
                let c0 = st.pending + entries;
                let c1 = st.pending + entries.drop_first();
                assert(forall|i: int|
                    0 <= i < c1.len() ==> c1[i] == (if i < st.pending.len() {
                        c0[i]
                    } else {
                        c0[i + 1]
                    }));
                assert forall|i: int, j: int| 0 <= i < j < c1.len() implies (#[trigger] c1[i]).unit
                    != (#[trigger] c1[j]).unit by {
                    let i0: int = if i < st.pending.len() { i } else { i + 1 };
                    let j0: int = if j < st.pending.len() { j } else { j + 1 };
                    assert(c1[i] == c0[i0] && c1[j] == c0[j0]);
                }
                assert(forall|i: int|
                    0 <= i < c1.len() ==> files_unique((#[trigger] c1[i]).files));
            }
        } else {
            let kept = if ent.files.len() > 0 && (st.current is None || st.current == Some(
                ent.unit,
            )) {
                UnitEntryV { unit: ent.unit, files: Seq::empty(), errors: ent.errors }
            } else {
                ent
            };
            assert(st1.pending == st.pending.push(kept));
            assert(kept.unit == ent.unit);
            assert(entries_wf(st1.pending + entries.drop_first())) by {
                let c0 = st.pending + entries;
                let c1 = st1.pending + entries.drop_first();
                assert(c1.len() == c0.len());
                assert(forall|i: int|
                    0 <= i < c1.len() ==> (#[trigger] c1[i]).unit == c0[if i < st.pending.len() {
                        i
                    } else if i == st.pending.len() {
                        i
                    } else {
                        i
                    }].unit);
                assert(forall|i: int|
                    0 <= i < c1.len() ==> files_unique((#[trigger] c1[i]).files));
                assert forall|i: int, j: int| 0 <= i < j < c1.len() implies (#[trigger] c1[i]).unit
                    != (#[trigger] c1[j]).unit by {
                    assert(c1[i].unit == c0[i].unit && c1[j].unit == c0[j].unit);
                }
            }
        }
        lemma_scan_wf(st1, entries.drop_first());
    }
}


/// The scan never clears the current unit: if none is current afterwards,
/// none was before.
pub proof fn lemma_scan_current(st: ScanV, entries: Seq<UnitEntryV>)
    ensures
        scan_rest(st, entries).current is None ==> st.current is None,
    decreases entries.len(),
{
    if entries.len() == 0 {
    } else {
        lemma_scan_current(scan_step(st, entries.first()), entries.drop_first());
    }
}

/// The package id to announce for `pkg`, unless a unit of that package was
/// already finalized.
fn announce_for(seen: &Vec<BuildUnit>, pkg: &Vec<u8>) -> (r: Option<Vec<u8>>)
    ensures
        (match r {
            Some(p) => Some(p@),
            None => None,
        }) == announce_spec(units_view(seen@), pkg@),
{
    let mut i: usize = 0;
    while i < seen.len()
        invariant
            0 <= i <= seen.len(),
            forall|j: int| 0 <= j < i ==> (#[trigger] units_view(seen@)[j]).package_id != pkg@,
        decreases seen.len() - i,
    {
        if bytes_eq_slice(&seen[i].package_id, pkg) {
            assert(units_view(seen@)[i as int].package_id == pkg@);
            return None;
        }
        i += 1;
    }
    assert(!pkg_seen(units_view(seen@), pkg@));
    Some(copy_bytes(pkg))
}

/// A copy of an error list.
fn copy_errors(errs: &Vec<Vec<u8>>) -> (r: Vec<Vec<u8>>)
    ensures
        errors_view(r@) == errors_view(errs@),
{
    let mut r: Vec<Vec<u8>> = Vec::new();
    let mut i: usize = 0;
    while i < errs.len()
        invariant
            0 <= i <= errs.len(),
            errors_view(r@) == errors_view(errs@).take(i as int),
        decreases errs.len() - i,
    {
        r.push(copy_bytes(&errs[i]));
        proof {
            assert(errors_view(r@) =~= errors_view(errs@).take(i as int + 1));
        }
        i += 1;
    }
    proof {
        assert(errors_view(errs@).take(errs@.len() as int) =~= errors_view(errs@));
    }
    r
}

/// Fold the rendered texts of the entry's pending edits into a copy of its
/// error list: what the capped unit reports as residual.
fn residual_with_renders(ent: &UnitEntry) -> (r: Vec<Vec<u8>>)
    ensures
        errors_view(r@) == renders_files_into(ent@.errors, ent@.files),
{
    let mut r = copy_errors(&ent.errors);
    let ghost filesv = ent@.files;
    let mut i: usize = 0;
    while i < ent.files.len()
        invariant
            0 <= i <= ent.files.len(),
            filesv == ent@.files,
            errors_view(r@) == renders_files_into(ent@.errors, filesv.take(i as int)),
        decreases ent.files.len() - i,
    {
        let fe = &ent.files[i];
        let ghost editsv = filesv[i as int].edits;
        let mut j: usize = 0;
        while j < fe.edits.len()
            invariant
                0 <= i < ent.files.len(),
                0 <= j <= fe.edits@.len(),
                filesv == ent@.files,
                fe == &ent.files[i as int],
                editsv == filesv[i as int].edits,
                errors_view(r@) == renders_into(
                    renders_files_into(ent@.errors, filesv.take(i as int)),
                    editsv.take(j as int),
                ),
            decreases fe.edits@.len() - j,
        {
            proof {
                assert(editsv.take(j as int + 1).drop_last() =~= editsv.take(j as int));
                assert(editsv.take(j as int + 1).last() == editsv[j as int]);
                assert(editsv[j as int] == fe.edits@[j as int]@);
            }
            match &fe.edits[j].rendered {
                Some(t) => {
                    push_unique(&mut r, copy_bytes(t));
                },
                None => {},
            }
            j += 1;
        }
        proof {
            assert(editsv.take(editsv.len() as int) =~= editsv);
            assert(filesv.take(i as int + 1).drop_last() =~= filesv.take(i as int));
            assert(filesv.take(i as int + 1).last() == filesv[i as int]);
        }
        i += 1;
    }
    proof {
        assert(filesv.take(filesv.len() as int) =~= filesv);
    }
    r
}

impl Engine {
    /// A fresh engine with the given retry budget.
    pub fn new(max_iterations: u64) -> (r: Engine)
        ensures
            r@ == (EngineV {
                max_iterations: max_iterations as int,
                iteration: 0,
                current: None,
                seen: Seq::empty(),
                files: Seq::empty(),
                pending: Seq::empty(),
            }),
            engine_wf(r@),
    {
        let r = Engine {
            max_iterations,
            iteration: 0,
            current: None,
            seen: Vec::new(),
            files: Vec::new(),
            pending: Vec::new(),
        };
        proof {
            assert(r@ =~~= (EngineV {
                max_iterations: max_iterations as int,
                iteration: 0,
                current: None,
                seen: Seq::empty(),
                files: Seq::empty(),
                pending: Seq::empty(),
            }));
        }
        r
    }

    /// Read one pass's events: group them by unit, finalize the capped or
    /// edit-free units that need no file work, and hand out the current
    /// unit's files to be patched.
    pub fn begin_pass(&mut self, events: Vec<Event>, dirs: &Vec<Vec<u8>>) -> (plan: PassPlan)
        requires
            engine_wf(old(self)@),
        ensures
            engine_wf(final(self)@),
            ({
                let st = begin_spec(old(self)@, events_view(events@), dirs_view(dirs@));
                &&& final(self)@ == (EngineV {
                    max_iterations: old(self)@.max_iterations,
                    iteration: cap_state(old(self)@).iteration,
                    current: st.current,
                    seen: st.seen,
                    files: cap_state(old(self)@).files,
                    pending: st.pending,
                })
                &&& reports_view(plan.reports@) == st.reports
                &&& files_view(plan.work@) == st.work
            }),
    {
        let ghost e0 = self@;
        let ghost evs = events_view(events@);
        let ghost dirsv = dirs_view(dirs@);
        let entries = collect(events, &self.seen, dirs);
        let ghost entriesv = entries_view(entries@);
        proof {
            lemma_collect_invariants(evs, e0.seen, dirsv);
        }
        let mut reports: Vec<UnitReport> = Vec::new();
        // Finalize the unit in flight if its retry budget is spent.
        let capped: bool = match &self.current {
            Some(_) => self.iteration >= self.max_iterations,
            None => false,
        };
        if capped {
            let u = match &self.current {
                Some(c) => unit_copy(c),
                // Never taken: the cap only hits with a unit in flight.
                None => BuildUnit { target_name: Vec::new(), package_id: Vec::new() },
            };
            assert(u@ == e0.current->Some_0);
            let announce = announce_for(&self.seen, &u.package_id);
            let mut fixed: Vec<FileCount> = Vec::new();
            core::mem::swap(&mut fixed, &mut self.files);
            let residual = match find_entry(&entries, &u) {
                Some(i) => {
                    proof {
                        assert(has_unit(entriesv, u@));
                        assert(entriesv[entry_index(entriesv, u@)].unit == u@);
                        assert(entry_index(entriesv, u@) == i as int) by {
                            let j = entry_index(entriesv, u@);
                            if j != i as int {
                                assert(entriesv[j].unit == entriesv[i as int].unit);
                            }
                        }
                    }
                    residual_with_renders(&entries[i])
                },
                None => {
                    proof {
                        assert(errors_of(entriesv, u@) =~= Seq::<Seq<u8>>::empty());
                        assert(files_of(entriesv, u@) =~= Seq::<FileEditsV>::empty());
                    }
                    Vec::new()
                },
            };
            reports.push(UnitReport { announce, fixed, residual });
            self.seen.push(u);
            self.current = None;
            self.iteration = 0;
            proof {
                assert(units_view(self.seen@) =~= e0.seen.push(e0.current->Some_0));
                assert(counts_view(self.files@) =~= Seq::<FileCountV>::empty());
                assert(reports_view(reports@) =~~= cap_report(e0, entriesv));
            }
        } else {
            proof {
                assert(reports_view(reports@) =~~= cap_report(e0, entriesv));
            }
        }
        proof {
            assert(self@.seen == cap_state(e0).seen);
            assert(self@.current == cap_state(e0).current);
            assert(self@.iteration == cap_state(e0).iteration);
            assert(self@.files == cap_state(e0).files);
        }
        // Scan the table in first-seen order.
        let mut pending: Vec<UnitEntry> = Vec::new();
        let mut work: Vec<FileEdits> = Vec::new();
        let ghost st0 = ScanV {
            current: cap_state(e0).current,
            seen: cap_state(e0).seen,
            pending: Seq::empty(),
            reports: cap_report(e0, entriesv),
            work: Seq::empty(),
        };
        let mut rest = entries;
        proof {
            assert(entries_view(pending@) =~= Seq::<UnitEntryV>::empty());
            assert(files_view(work@) =~= Seq::<FileEditsV>::empty());
            assert(scan_rest(st0, entriesv) == scan_rest(
                ScanV {
                    current: opt_unit_view(self.current),
                    seen: units_view(self.seen@),
                    pending: entries_view(pending@),
                    reports: reports_view(reports@),
                    work: files_view(work@),
                },
                entries_view(rest@),
            ));
        }
        while rest.len() > 0
            invariant
                self.max_iterations == old(self).max_iterations,
                self.iteration as int == cap_state(e0).iteration,
                counts_view(self.files@) == cap_state(e0).files,
                self.pending == old(self).pending,
                scan_rest(st0, entriesv) == scan_rest(
                    ScanV {
                        current: opt_unit_view(self.current),
                        seen: units_view(self.seen@),
                        pending: entries_view(pending@),
                        reports: reports_view(reports@),
                        work: files_view(work@),
                    },
                    entries_view(rest@),
                ),
            decreases rest@.len(),
        {
            let ghost stc = ScanV {
                current: opt_unit_view(self.current),
                seen: units_view(self.seen@),
                pending: entries_view(pending@),
                reports: reports_view(reports@),
                work: files_view(work@),
            };
            let ghost restv0 = rest@;
            let ent = rest.remove(0);
            proof {
                assert(rest@ =~= restv0.subrange(1, restv0.len() as int));
                assert(ent@ == entries_view(restv0).first());
                assert(entries_view(rest@) =~= entries_view(restv0).drop_first());
            }
            let in_seen = contains_unit(&self.seen, &ent.unit);
            if in_seen {
                proof {
                    assert(scan_step(stc, ent@) == stc);
                }
            } else {
                let cur_none: bool = match &self.current {
                    Some(_) => false,
                    None => true,
                };
                if cur_none && ent.files.len() == 0 {
                    let UnitEntry { unit, files: _, errors } = ent;
                    let announce = announce_for(&self.seen, &unit.package_id);
                    let ghost uv = unit@;
                    reports.push(UnitReport { announce, fixed: Vec::new(), residual: errors });
                    self.seen.push(unit);
                    proof {
                        assert(units_view(self.seen@) =~= stc.seen.push(uv));
                        assert(reports_view(reports@) =~~= scan_step(stc, ent@).reports);
                    }
                } else {
                    let matches_current: bool = match &self.current {
                        Some(c) => unit_eq(c, &ent.unit),
                        None => true,
                    };
                    if ent.files.len() > 0 && matches_current {
                        let UnitEntry { unit, files, errors } = ent;
                        let kept = UnitEntry {
                            unit: unit_copy(&unit),
                            files: Vec::new(),
                            errors,
                        };
                        proof {
                            assert(kept@ =~~= (UnitEntryV {
                                unit: unit@,
                                files: Seq::empty(),
                                errors: ent@.errors,
                            }));
                        }
                        pending.push(kept);
                        work = files;
                        self.current = Some(unit);
                        proof {
                            assert(entries_view(pending@) =~~= scan_step(stc, ent@).pending);
                        }
                    } else {
                        pending.push(ent);
                        proof {
                            assert(entries_view(pending@) =~~= scan_step(stc, ent@).pending);
                        }
                    }
                }
            }
        }
        proof {
            assert(entries_view(rest@).len() == 0);
            assert(scan_rest(
                ScanV {
                    current: opt_unit_view(self.current),
                    seen: units_view(self.seen@),
                    pending: entries_view(pending@),
                    reports: reports_view(reports@),
                    work: files_view(work@),
                },
                entries_view(rest@),
            ) == (ScanV {
                current: opt_unit_view(self.current),
                seen: units_view(self.seen@),
                pending: entries_view(pending@),
                reports: reports_view(reports@),
                work: files_view(work@),
            }));
        }
        self.pending = pending;
        proof {
            let st = begin_spec(e0, evs, dirsv);
            assert(st == scan_rest(st0, entriesv));
            assert(self@ =~~= (EngineV {
                max_iterations: e0.max_iterations,
                iteration: cap_state(e0).iteration,
                current: st.current,
                seen: st.seen,
                files: cap_state(e0).files,
                pending: st.pending,
            }));
            // Well-formedness: the pending table inherits distinct units
            // from the pass's table.
            assert(entries_wf(Seq::<UnitEntryV>::empty() + entriesv)) by {
                assert(Seq::<UnitEntryV>::empty() + entriesv =~= entriesv);
            }
            lemma_scan_wf(st0, entriesv);
            lemma_scan_current(st0, entriesv);
            assert(st.current is None ==> self@.iteration == 0);
        }
        PassPlan { reports, work }
    }
}

/// Saturating addition of a fix count.
pub open spec fn sat_add(a: int, b: int) -> int {
    if a + b <= 0xffff_ffff_ffff_ffff {
        a + b
    } else {
        0xffff_ffff_ffff_ffff
    }
}

/// Add `n` fixes to `f`'s running count, opening a slot if needed.
pub open spec fn bump_counts(cs: Seq<FileCountV>, f: Seq<u8>, n: int) -> Seq<FileCountV> {
    if has_count(cs, f) {
        cs.map_values(
            |c: FileCountV|
                if c.file == f {
                    FileCountV { file: c.file, fixes: sat_add(c.fixes, n) }
                } else {
                    c
                },
        )
    } else {
        cs.push(FileCountV { file: f, fixes: n })
    }
}

/// Record each error text for unit `u`, in order.
pub open spec fn add_errors_list(
    pending: Seq<UnitEntryV>,
    u: UnitV,
    errs: Seq<Seq<u8>>,
) -> Seq<UnitEntryV>
    decreases errs.len(),
{
    if errs.len() == 0 {
        pending
    } else {
        add_error(add_errors_list(pending, u, errs.drop_last()), u, errs.last())
    }
}

/// Fold the files' outcomes into the engine: conflict texts become the
/// current unit's errors; a modified file's fix count grows.
pub open spec fn merge_pending(
    pending: Seq<UnitEntryV>,
    u: UnitV,
    rs: Seq<FileReportInV>,
) -> Seq<UnitEntryV>
    decreases rs.len(),
{
    if rs.len() == 0 {
        pending
    } else {
        add_errors_list(merge_pending(pending, u, rs.drop_last()), u, rs.last().errors)
    }
}

pub open spec fn merge_counts(cs: Seq<FileCountV>, rs: Seq<FileReportInV>) -> Seq<FileCountV>
    decreases rs.len(),
{
    if rs.len() == 0 {
        cs
    } else {
        let c1 = merge_counts(cs, rs.drop_last());
        if rs.last().modified {
            bump_counts(c1, rs.last().file, rs.last().fixes)
        } else {
            c1
        }
    }
}

pub open spec fn any_modified(rs: Seq<FileReportInV>) -> bool {
    exists|i: int| 0 <= i < rs.len() && (#[trigger] rs[i]).modified
}

/// The pending table without unit `u`'s entry.
pub open spec fn pending_without(p: Seq<UnitEntryV>, u: UnitV) -> Seq<UnitEntryV> {
    if has_unit(p, u) {
        p.remove(entry_index(p, u))
    } else {
        p
    }
}

/// Every pending unit's errors, in order.
pub open spec fn all_errors(p: Seq<UnitEntryV>) -> Seq<Seq<u8>>
    decreases p.len(),
{
    if p.len() == 0 {
        Seq::empty()
    } else {
        all_errors(p.drop_last()) + p.last().errors
    }
}

/// Recording an error keeps the table well formed.
pub proof fn lemma_add_error_wf(acc: Seq<UnitEntryV>, u: UnitV, t: Seq<u8>)
    requires
        entries_wf(acc),
    ensures
        entries_wf(add_error(acc, u, t)),
{
    lemma_ensure_entry_wf(acc, u);
    let a1 = ensure_entry(acc, u);
    let r = add_error(acc, u, t);
    assert(forall|i: int| 0 <= i < r.len() ==> (#[trigger] r[i]).unit == a1[i].unit);
    assert(forall|i: int| 0 <= i < r.len() ==> (#[trigger] r[i]).files == a1[i].files);
}

/// Add `n` fixes to `f`'s running count, opening a slot if needed.  The
/// count saturates rather than wraps.
fn bump_counts_exec(cs: &mut Vec<FileCount>, f: Vec<u8>, n: u64)
    requires
        counts_unique(counts_view(old(cs)@)),
    ensures
        counts_view(final(cs)@) == bump_counts(counts_view(old(cs)@), f@, n as int),
        counts_unique(counts_view(final(cs)@)),
{
    let ghost cs0 = counts_view(cs@);
    let ghost fv = f@;
    let mut i: usize = 0;
    while i < cs.len()
        invariant
            0 <= i <= cs.len(),
            *cs == *old(cs),
            forall|j: int| 0 <= j < i ==> (#[trigger] counts_view(cs@)[j]).file != fv,
        decreases cs.len() - i,
    {
        if bytes_eq_slice(&cs[i].file, &f) {
            proof {
                assert(counts_view(cs@)[i as int].file == fv);
                assert(has_count(cs0, fv));
            }
            let mut c = cs.remove(i);
            c.fixes = if c.fixes <= u64::MAX - n {
                c.fixes + n
            } else {
                u64::MAX
            };
            proof {
                assert(c@ =~~= (FileCountV {
                    file: cs0[i as int].file,
                    fixes: sat_add(cs0[i as int].fixes, n as int),
                }));
            }
            cs.insert(i, c);
            proof {
                let res = bump_counts(cs0, fv, n as int);
                assert(res.len() == cs0.len());
                assert forall|j: int| 0 <= j < cs0.len() implies res[j] == counts_view(cs@)[j] by {
                    if j != i as int {
                        assert(cs0[j].file != fv);
                        assert(res[j] == cs0[j]);
                    }
                }
                assert(counts_view(cs@) =~~= res);
            }
            return ;
        }
        i += 1;
    }
    assert(!has_count(cs0, fv));
    cs.push(FileCount { file: f, fixes: n });
    proof {
        assert(counts_view(cs@) =~~= bump_counts(cs0, fv, n as int));
        assert forall|a: int, b: int|
            0 <= a < b < counts_view(cs@).len() implies (#[trigger] counts_view(cs@)[a]).file
            != (#[trigger] counts_view(cs@)[b]).file by {
            if b == cs0.len() {
                assert(counts_view(cs@)[a] == cs0[a]);
            }
        }
    }
}

impl Engine {
    /// Fold the pass's file outcomes back in and decide how to go on: keep
    /// fixing the current unit, finalize it, or — with no current unit and
    /// nothing selected — end the run.
    pub fn finish_pass(&mut self, results: Vec<FileReportIn>) -> (r: PassResult)
        requires
            engine_wf(old(self)@),
        ensures
            engine_wf(final(self)@),
            ({
                let rs = freports_view(results@);
                let e0 = old(self)@;
                match e0.current {
                    Some(u) => {
                        let p1 = merge_pending(e0.pending, u, rs);
                        let f1 = merge_counts(e0.files, rs);
                        if any_modified(rs) {
                            &&& final(self)@ == (EngineV {
                                max_iterations: e0.max_iterations,
                                iteration: if e0.iteration < e0.max_iterations {
                                    e0.iteration + 1
                                } else {
                                    e0.iteration
                                },
                                current: e0.current,
                                seen: e0.seen,
                                files: f1,
                                pending: p1,
                            })
                            &&& r.done == false
                            &&& reports_view(r.reports@) == Seq::<UnitReportV>::empty()
                        } else {
                            &&& final(self)@ == (EngineV {
                                max_iterations: e0.max_iterations,
                                iteration: 0,
                                current: None,
                                seen: e0.seen.push(u),
                                files: Seq::empty(),
                                pending: pending_without(p1, u),
                            })
                            &&& r.done == false
                            &&& reports_view(r.reports@) == seq![
                                UnitReportV {
                                    announce: announce_spec(e0.seen, u.package_id),
                                    fixed: f1,
                                    residual: errors_of(p1, u),
                                },
                            ]
                        }
                    },
                    None => {
                        &&& final(self)@ == (EngineV {
                            max_iterations: e0.max_iterations,
                            iteration: 0,
                            current: None,
                            seen: e0.seen,
                            files: Seq::empty(),
                            pending: Seq::empty(),
                        })
                        &&& r.done == true
                        &&& reports_view(r.reports@) == seq![
                            UnitReportV {
                                announce: None,
                                fixed: e0.files,
                                residual: all_errors(e0.pending),
                            },
                        ]
                    },
                }
            }),
    {
        let ghost e0 = self@;
        let ghost rsv = freports_view(results@);
        let has_current: bool = match &self.current {
            Some(_) => true,
            None => false,
        };
        if !has_current {
            // Nothing was selected and nothing is in flight: the run ends.
            let mut fixed: Vec<FileCount> = Vec::new();
            core::mem::swap(&mut fixed, &mut self.files);
            let mut pending: Vec<UnitEntry> = Vec::new();
            core::mem::swap(&mut pending, &mut self.pending);
            let ghost pv = entries_view(pending@);
            let mut residual: Vec<Vec<u8>> = Vec::new();
            let mut rest = pending;
            while rest.len() > 0
                invariant
                    rest@.len() <= pv.len(),
                    entries_view(rest@) == pv.subrange(pv.len() - rest@.len(), pv.len() as int),
                    errors_view(residual@) == all_errors(pv.take(pv.len() - rest@.len())),
                decreases rest@.len(),
            {
                let ghost k = pv.len() - rest@.len();
                let ghost restv0 = rest@;
                let ent = rest.remove(0);
                proof {
                    assert(rest@ =~= restv0.subrange(1, restv0.len() as int));
                    assert(ent@ == entries_view(restv0).first());
                    assert(ent@ == pv[k]);
                    assert forall|j: int|
                        0 <= j < rest@.len() implies entries_view(rest@)[j] == pv[k + 1 + j] by {
                        assert(entries_view(rest@)[j] == rest@[j]@);
                        assert(rest@[j] == restv0[j + 1]);
                        assert(entries_view(restv0)[j + 1] == restv0[j + 1]@);
                    }
                    assert(entries_view(rest@) =~= pv.subrange(k + 1, pv.len() as int));
                }
                let ghost errsv = ent@.errors;
                let mut errs = ent.errors;
                let ghost base = errors_view(residual@);
                while errs.len() > 0
                    invariant
                        errs@.len() <= errsv.len(),
                        errors_view(errs@) == errsv.subrange(
                            errsv.len() - errs@.len(),
                            errsv.len() as int,
                        ),
                        errors_view(residual@) == base + errsv.take(errsv.len() - errs@.len()),
                    decreases errs@.len(),
                {
                    let ghost m = errsv.len() - errs@.len();
                    let ghost errsv0 = errs@;
                    let t = errs.remove(0);
                    proof {
                        assert(errs@ =~= errsv0.subrange(1, errsv0.len() as int));
                        assert(t@ == errors_view(errsv0).first());
                        assert(t@ == errsv[m]);
                        assert forall|j: int|
                            0 <= j < errs@.len() implies errors_view(errs@)[j] == errsv[m + 1
                            + j] by {
                            assert(errors_view(errs@)[j] == errs@[j]@);
                            assert(errs@[j] == errsv0[j + 1]);
                            assert(errors_view(errsv0)[j + 1] == errsv0[j + 1]@);
                        }
                        assert(errors_view(errs@) =~= errsv.subrange(m + 1, errsv.len() as int));
                    }
                    let ghost resid0 = errors_view(residual@);
                    residual.push(t);
                    proof {
                        assert(errsv.take(m + 1) =~= errsv.take(m).push(errsv[m]));
                        assert(errors_view(residual@) =~= resid0.push(t@));
                        assert(errors_view(residual@) =~= base + errsv.take(m + 1));
                    }
                }
                proof {
                    assert(errsv.take(errsv.len() as int) =~= errsv);
                    assert(pv.take(k + 1).drop_last() =~= pv.take(k));
                    assert(pv.take(k + 1).last() == pv[k]);
                    assert(errors_view(residual@) == all_errors(pv.take(k + 1)));
                }
            }
            proof {
                assert(pv.take(pv.len() as int) =~= pv);
            }
            let mut reports: Vec<UnitReport> = Vec::new();
            reports.push(UnitReport { announce: None, fixed, residual });
            proof {
                assert(reports_view(reports@) =~~= seq![
                    UnitReportV { announce: None, fixed: e0.files, residual: all_errors(e0.pending) },
                ]);
                assert(self@ =~~= (EngineV {
                    max_iterations: e0.max_iterations,
                    iteration: 0,
                    current: None,
                    seen: e0.seen,
                    files: Seq::empty(),
                    pending: Seq::empty(),
                }));
            }
            return PassResult { reports, done: true };
        }
        let u = match &self.current {
            Some(c) => unit_copy(c),
            // Never taken: this path is guarded by has_current above.
            None => BuildUnit { target_name: Vec::new(), package_id: Vec::new() },
        };
        assert(u@ == e0.current->Some_0);
        let ghost uv = u@;
        // Fold the outcomes in.
        let mut made: bool = false;
        let mut rest = results;
        while rest.len() > 0
            invariant
                engine_wf(self@),
                rest@.len() <= rsv.len(),
                freports_view(rest@) == rsv.subrange(rsv.len() - rest@.len(), rsv.len() as int),
                entries_view(self.pending@) == merge_pending(
                    e0.pending,
                    uv,
                    rsv.take(rsv.len() - rest@.len()),
                ),
                counts_view(self.files@) == merge_counts(
                    e0.files,
                    rsv.take(rsv.len() - rest@.len()),
                ),
                made == any_modified(rsv.take(rsv.len() - rest@.len())),
                self.max_iterations == old(self).max_iterations,
                self.iteration == old(self).iteration,
                self.current == old(self).current,
                self.seen == old(self).seen,
            decreases rest@.len(),
        {
            let ghost k = rsv.len() - rest@.len();
            let ghost restv0 = rest@;
            let fr = rest.remove(0);
            proof {
                assert(rest@ =~= restv0.subrange(1, restv0.len() as int));
                assert(fr@ == freports_view(restv0).first());
                assert(fr@ == rsv[k]);
                assert forall|j: int|
                    0 <= j < rest@.len() implies freports_view(rest@)[j] == rsv[k + 1 + j] by {
                    assert(freports_view(rest@)[j] == rest@[j]@);
                    assert(rest@[j] == restv0[j + 1]);
                    assert(freports_view(restv0)[j + 1] == restv0[j + 1]@);
                }
                assert(freports_view(rest@) =~= rsv.subrange(k + 1, rsv.len() as int));
            }
            let FileReportIn { file, modified, fixes, errors } = fr;
            let ghost errsv = rsv[k].errors;
            let ghost pend0 = entries_view(self.pending@);
            let mut errs = errors;
            while errs.len() > 0
                invariant
                    errs@.len() <= errsv.len(),
                    errors_view(errs@) == errsv.subrange(
                        errsv.len() - errs@.len(),
                        errsv.len() as int,
                    ),
                    entries_view(self.pending@) == add_errors_list(
                        pend0,
                        uv,
                        errsv.take(errsv.len() - errs@.len()),
                    ),
                    entries_wf(entries_view(self.pending@)),
                    self.max_iterations == old(self).max_iterations,
                    self.iteration == old(self).iteration,
                    self.current == old(self).current,
                    self.seen == old(self).seen,
                    counts_view(self.files@) == merge_counts(e0.files, rsv.take(k)),
                    counts_unique(counts_view(self.files@)),
                decreases errs@.len(),
            {
                let ghost m = errsv.len() - errs@.len();
                let ghost errsv0 = errs@;
                let t = errs.remove(0);
                proof {
                    assert(errs@ =~= errsv0.subrange(1, errsv0.len() as int));
                    assert(t@ == errors_view(errsv0).first());
                    assert(t@ == errsv[m]);
                    assert forall|j: int|
                        0 <= j < errs@.len() implies errors_view(errs@)[j] == errsv[m + 1 + j] by {
                        assert(errors_view(errs@)[j] == errs@[j]@);
                        assert(errs@[j] == errsv0[j + 1]);
                        assert(errors_view(errsv0)[j + 1] == errsv0[j + 1]@);
                    }
                    assert(errors_view(errs@) =~= errsv.subrange(m + 1, errsv.len() as int));
                }
                add_error_exec(&mut self.pending, &u, t);
                proof {
                    assert(errsv.take(m + 1).drop_last() =~= errsv.take(m));
                    assert(errsv.take(m + 1).last() == errsv[m]);
                    lemma_add_error_wf(add_errors_list(pend0, uv, errsv.take(m)), uv, errsv[m]);
                }
            }
            proof {
                assert(errsv.take(errsv.len() as int) =~= errsv);
            }
            if modified {
                made = true;
                bump_counts_exec(&mut self.files, file, fixes);
            }
            proof {
                assert(rsv.take(k + 1).drop_last() =~= rsv.take(k));
                assert(rsv.take(k + 1).last() == rsv[k]);
                if !made {
                    assert forall|j: int|
                        0 <= j < k + 1 implies !(#[trigger] rsv.take(k + 1)[j]).modified by {
                        assert(rsv.take(k + 1)[j] == rsv[j]);
                        if j < k {
                            assert(rsv.take(k)[j] == rsv[j]);
                            assert(!any_modified(rsv.take(k)));
                        }
                    }
                } else {
                    if any_modified(rsv.take(k)) {
                        let w = choose|j: int|
                            0 <= j < k && (#[trigger] rsv.take(k)[j]).modified;
                        assert(rsv.take(k + 1)[w].modified);
                    } else {
                        assert(rsv.take(k + 1)[k].modified);
                    }
                }
            }
        }
        proof {
            assert(rsv.take(rsv.len() as int) =~= rsv);
        }
        let ghost p1 = merge_pending(e0.pending, uv, rsv);
        let ghost f1 = merge_counts(e0.files, rsv);
        if made {
            if self.iteration < self.max_iterations {
                self.iteration = self.iteration + 1;
            }
            proof {
                assert(self@ =~~= (EngineV {
                    max_iterations: e0.max_iterations,
                    iteration: if e0.iteration < e0.max_iterations {
                        e0.iteration + 1
                    } else {
                        e0.iteration
                    },
                    current: e0.current,
                    seen: e0.seen,
                    files: f1,
                    pending: p1,
                }));
                assert(reports_view(Seq::<UnitReport>::empty()) =~= Seq::<UnitReportV>::empty());
            }
            return PassResult { reports: Vec::new(), done: false };
        }
        // Nothing changed: finalize the current unit.
        let announce = announce_for(&self.seen, &u.package_id);
        let mut fixed: Vec<FileCount> = Vec::new();
        core::mem::swap(&mut fixed, &mut self.files);
        let residual: Vec<Vec<u8>> = match find_entry(&self.pending, &u) {
            Some(i) => {
                proof {
                    assert(has_unit(p1, uv));
                    assert(entry_index(p1, uv) == i as int) by {
                        let j = entry_index(p1, uv);
                        assert(p1[j].unit == uv);
                        if j != i as int {
                            assert(p1[j].unit == p1[i as int].unit);
                        }
                    }
                }
                let ent = self.pending.remove(i);
                proof {
                    assert(entries_view(self.pending@) =~= pending_without(p1, uv));
                }
                ent.errors
            },
            None => {
                proof {
                    assert(!has_unit(p1, uv));
                    assert(errors_of(p1, uv) =~= Seq::<Seq<u8>>::empty());
                }
                Vec::new()
            },
        };
        self.current = None;
        self.iteration = 0;
        self.seen.push(u);
        let mut reports: Vec<UnitReport> = Vec::new();
        reports.push(UnitReport { announce, fixed, residual });
        proof {
            assert(units_view(self.seen@) =~= e0.seen.push(uv));
            assert(self@ =~~= (EngineV {
                max_iterations: e0.max_iterations,
                iteration: 0,
                current: None,
                seen: e0.seen.push(uv),
                files: Seq::empty(),
                pending: pending_without(p1, uv),
            }));
            assert(reports_view(reports@) =~~= seq![
                UnitReportV {
                    announce: announce_spec(e0.seen, uv.package_id),
                    fixed: f1,
                    residual: errors_of(p1, uv),
                },
            ]);
            assert(entries_wf(entries_view(self.pending@))) by {
                let pw = pending_without(p1, uv);
                assert(entries_wf(p1));
                if has_unit(p1, uv) {
                    let ix = entry_index(p1, uv);
                    assert forall|a: int, b: int| 0 <= a < b < pw.len() implies (#[trigger] pw[a]).unit
                        != (#[trigger] pw[b]).unit by {
                        let a0: int = if a < ix { a } else { a + 1 };
                        let b0: int = if b < ix { b } else { b + 1 };
                        assert(pw[a] == p1[a0] && pw[b] == p1[b0]);
                    }
                    assert(forall|a: int| 0 <= a < pw.len() ==> files_unique((#[trigger] pw[a]).files));
                }
            }
        }
        PassResult { reports, done: false }
    }
}

/// Law of unit isolation: a pass hands out files to be written only for
/// the unit that is current at the end of the scan; the edits of every
/// other not-yet-seen unit stay pending, untouched.
pub proof fn lemma_scan_isolation(st: ScanV, entries: Seq<UnitEntryV>)
    ensures
        ({
            let stf = scan_rest(st, entries);
            (stf.work == st.work && stf.current == st.current) || (stf.current is Some
                && exists|i: int|
                0 <= i < entries.len() && (#[trigger] entries[i]).unit == stf.current->Some_0
                    && entries[i].files == stf.work)
        }),
    decreases entries.len(),
{
    if entries.len() == 0 {
    } else {
        let e0 = entries.first();
        let st1 = scan_step(st, e0);
        let rest = entries.drop_first();
        lemma_scan_isolation(st1, rest);
        let stf = scan_rest(st, entries);
        assert(stf == scan_rest(st1, rest));
        if stf.work == st1.work && stf.current == st1.current {
            if st1.work == st.work && st1.current == st.current {
            } else {
                assert(st1.current == Some(e0.unit) && st1.work == e0.files);
                assert(entries[0] == e0);
            }
        } else {
            let i = choose|i: int|
                0 <= i < rest.len() && (#[trigger] rest[i]).unit == stf.current->Some_0
                    && rest[i].files == stf.work;
            assert(entries[i + 1] == rest[i]);
        }
    }
}


/// The scan never unmarks a unit: the seen set only grows, and it grows
/// exactly by the units it finalizes.  Together with the cap check and
/// `lemma_pass_progress` this bounds every run: each pass either ends the
/// run, moves a unit into the seen set for good, or advances the current
/// unit's retry count toward its budget.
pub proof fn lemma_scan_seen_monotone(st: ScanV, entries: Seq<UnitEntryV>)
    ensures
        scan_rest(st, entries).seen.len() >= st.seen.len(),
        forall|i: int|
            0 <= i < st.seen.len() ==> scan_rest(st, entries).seen[i] == st.seen[i],
    decreases entries.len(),
{
    if entries.len() == 0 {
    } else {
        let st1 = scan_step(st, entries.first());
        lemma_scan_seen_monotone(st1, entries.drop_first());
        assert(forall|i: int| 0 <= i < st.seen.len() ==> st1.seen[i] == st.seen[i]);
        assert(forall|i: int|
            0 <= i < st.seen.len() ==> scan_rest(st1, entries.drop_first()).seen[i]
                == st1.seen[i]);
    }
}


/// Law of progress at the start of a pass: the seen set never shrinks, and
/// when the retry budget for the unit in flight is spent, the pass begins
/// by finalizing it — the seen set grows strictly.
pub proof fn lemma_begin_progress(e: EngineV, events: Seq<EventV>, dirs: Seq<Seq<u8>>)
    requires
        engine_wf(e),
    ensures
        begin_spec(e, events, dirs).seen.len() >= e.seen.len(),
        cap_hits(e) ==> begin_spec(e, events, dirs).seen.len() > e.seen.len(),
{
    let entries = collect_events(events, e.seen, dirs);
    let e1 = cap_state(e);
    let st0 = ScanV {
        current: e1.current,
        seen: e1.seen,
        pending: Seq::empty(),
        reports: cap_report(e, entries),
        work: Seq::empty(),
    };
    lemma_scan_seen_monotone(st0, entries);
}

/// Law of progress: what a finished pass guarantees.  Either the run is
/// done, or a unit was finalized (the seen set grew), or the same unit
/// stays current with its retry count strictly advanced — and once the
/// count reaches the budget, the next pass's cap check finalizes the unit.
/// Hence a run ends within (budget + 1) passes per distinct unit.
pub proof fn lemma_pass_progress(e0: EngineV, e1: EngineV, rs: Seq<FileReportInV>, done: bool)
    requires
        engine_wf(e0),
        // What finish_pass ensures of its state change.
        ({
            match e0.current {
                Some(u) => {
                    let p1 = merge_pending(e0.pending, u, rs);
                    let f1 = merge_counts(e0.files, rs);
                    if any_modified(rs) {
                        e1 == (EngineV {
                            max_iterations: e0.max_iterations,
                            iteration: if e0.iteration < e0.max_iterations {
                                e0.iteration + 1
                            } else {
                                e0.iteration
                            },
                            current: e0.current,
                            seen: e0.seen,
                            files: f1,
                            pending: p1,
                        }) && !done
                    } else {
                        e1 == (EngineV {
                            max_iterations: e0.max_iterations,
                            iteration: 0,
                            current: None,
                            seen: e0.seen.push(u),
                            files: Seq::empty(),
                            pending: pending_without(p1, u),
                        }) && !done
                    }
                },
                None => e1 == (EngineV {
                    max_iterations: e0.max_iterations,
                    iteration: 0,
                    current: None,
                    seen: e0.seen,
                    files: Seq::empty(),
                    pending: Seq::empty(),
                }) && done,
            }
        }),
    ensures
        done || e1.seen.len() > e0.seen.len() || (e1.current == e0.current && e0.current is Some
            && (e1.iteration > e0.iteration || e0.iteration == e0.max_iterations)),
{
    match e0.current {
        Some(u) => {
            if any_modified(rs) {
                assert(e0.iteration <= e0.max_iterations);
            } else {
                assert(e1.seen.len() == e0.seen.len() + 1);
            }
        },
        None => {},
    }
}

/// How much of one unit's processing is still ahead: largest with no unit
/// in flight, then shrinking as the retry budget is spent.
pub open spec fn budget_phase(e: EngineV) -> int {
    if e.current is None {
        e.max_iterations + 2
    } else {
        e.max_iterations + 1 - e.iteration
    }
}

/// The termination measure of a run over a stream that can report at most
/// `units` distinct build units: while units remain unseen it is positive,
/// and `lemma_pass_measure_decreases` shows every pass that does not end
/// the run strictly decreases it.  Hence the controller reaches its end
/// within (budget + 3) · units + budget + 2 passes.
pub open spec fn pass_measure(e: EngineV, units: int) -> int {
    (e.max_iterations + 3) * (units - e.seen.len()) + budget_phase(e)
}

/// Law of termination: one whole pass — reading the events, then folding
/// the file outcomes back in — either ends the run or strictly decreases
/// `pass_measure`, whatever the events and outcomes are.  The two premises
/// restate, verbatim, what `begin_pass` and `finish_pass` ensure of their
/// state changes.
pub proof fn lemma_pass_measure_decreases(
    e: EngineV,
    events: Seq<EventV>,
    dirs: Seq<Seq<u8>>,
    e1: EngineV,
    rs: Seq<FileReportInV>,
    e2: EngineV,
    done: bool,
    units: int,
)
    requires
        engine_wf(e),
        engine_wf(e1),
        engine_wf(e2),
        // What begin_pass ensures of its state change.
        e1 == (EngineV {
            max_iterations: e.max_iterations,
            iteration: cap_state(e).iteration,
            current: begin_spec(e, events, dirs).current,
            seen: begin_spec(e, events, dirs).seen,
            files: cap_state(e).files,
            pending: begin_spec(e, events, dirs).pending,
        }),
        // What finish_pass ensures of its state change.
        ({
            match e1.current {
                Some(u) => {
                    let p1 = merge_pending(e1.pending, u, rs);
                    let f1 = merge_counts(e1.files, rs);
                    if any_modified(rs) {
                        e2 == (EngineV {
                            max_iterations: e1.max_iterations,
                            iteration: if e1.iteration < e1.max_iterations {
                                e1.iteration + 1
                            } else {
                                e1.iteration
                            },
                            current: e1.current,
                            seen: e1.seen,
                            files: f1,
                            pending: p1,
                        }) && !done
                    } else {
                        e2 == (EngineV {
                            max_iterations: e1.max_iterations,
                            iteration: 0,
                            current: None,
                            seen: e1.seen.push(u),
                            files: Seq::empty(),
                            pending: pending_without(p1, u),
                        }) && !done
                    }
                },
                None => e2 == (EngineV {
                    max_iterations: e1.max_iterations,
                    iteration: 0,
                    current: None,
                    seen: e1.seen,
                    files: Seq::empty(),
                    pending: Seq::empty(),
                }) && done,
            }
        }),
    ensures
        done || pass_measure(e2, units) < pass_measure(e, units),
{
    if !done {
        let m = e.max_iterations;
        lemma_begin_progress(e, events, dirs);
        assert(e1.seen.len() >= e.seen.len());
        assert(1 <= budget_phase(e) <= m + 2);
        assert(1 <= budget_phase(e2) <= m + 2);
        let grown = e2.seen.len() - e.seen.len();
        match e1.current {
            Some(u) => {
                if any_modified(rs) {
                    if e1.seen.len() == e.seen.len() {
                        // No unit was finalized: the current unit's budget
                        // strictly shrinks.
                        assert(!cap_hits(e));
                        if e.current is None {
                            assert(e.iteration == 0);
                            assert(budget_phase(e2) <= m + 1 < budget_phase(e));
                        } else {
                            assert(e.iteration < m);
                            assert(e1.iteration == e.iteration);
                            assert(budget_phase(e2) == m - e.iteration);
                            assert(budget_phase(e2) < budget_phase(e));
                        }
                        assert(pass_measure(e2, units) < pass_measure(e, units));
                    } else {
                        assert(grown >= 1);
                        assert(pass_measure(e2, units) < pass_measure(e, units)) by (nonlinear_arith)
                            requires
                                grown == e2.seen.len() - e.seen.len(),
                                grown >= 1,
                                m >= 0,
                                pass_measure(e2, units) == (m + 3) * (units - e2.seen.len())
                                    + budget_phase(e2),
                                pass_measure(e, units) == (m + 3) * (units - e.seen.len())
                                    + budget_phase(e),
                                1 <= budget_phase(e) <= m + 2,
                                1 <= budget_phase(e2) <= m + 2,
                        {}
                    }
                } else {
                    // The current unit was finalized: the seen set grew.
                    assert(e2.seen.len() == e1.seen.len() + 1);
                    assert(grown >= 1);
                    assert(pass_measure(e2, units) < pass_measure(e, units)) by (nonlinear_arith)
                        requires
                            grown == e2.seen.len() - e.seen.len(),
                            grown >= 1,
                            m >= 0,
                            pass_measure(e2, units) == (m + 3) * (units - e2.seen.len())
                                + budget_phase(e2),
                            pass_measure(e, units) == (m + 3) * (units - e.seen.len())
                                + budget_phase(e),
                            1 <= budget_phase(e) <= m + 2,
                            1 <= budget_phase(e2) <= m + 2,
                    {}
                }
            },
            None => {},
        }
    }
}

} // verus!
