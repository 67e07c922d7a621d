//! Applying one file's accepted edits to its current text.
//!
//! Edits are tried in the reverse of their discovery order, so that an
//! edit applied near the end of the file never shifts the span of one
//! still to be applied nearer the start.  One edit is all-or-nothing: it
//! counts as a fix only when every one of its replacements applies afresh;
//! if any replacement is already in place or collides, the whole edit is
//! undone and the file keeps no half of it.  An edit already in place is
//! a harmless no-op; one that collides keeps its rendered text as an
//! error.

use vstd::prelude::*;
use crate::patch::{FileFix, Patch, PatchV, ApplyOutcome, apply_outcome, apply_patches, rendered, lemma_insert_contains, lemma_insert_preserves_identical, insert_sorted, patch_in_bounds};
use crate::suggest::{PendingEdit, PendingEditV};

verus! {

/// The patch set and verdict as the replacements `rs[i..]` are tried in
/// order: stop at the first replacement that is already in place
/// (`Unchanged`) or that collides (`Conflict`); `Applied` only when every
/// replacement applied afresh.  The patch set here still carries the
/// partial prefix; `edit_result` below discards it on failure.
pub open spec fn edit_try(ps: Seq<PatchV>, len: int, rs: Seq<PatchV>, i: int) -> (Seq<PatchV>, ApplyOutcome)
    decreases rs.len() - i,
{
    if i < 0 || i >= rs.len() {
        (ps, ApplyOutcome::Applied)
    } else {
        match apply_outcome(ps, len, rs[i]) {
            ApplyOutcome::Applied => edit_try(apply_patches(ps, len, rs[i]), len, rs, i + 1),
            ApplyOutcome::Unchanged => (ps, ApplyOutcome::Unchanged),
            ApplyOutcome::Conflict => (ps, ApplyOutcome::Conflict),
        }
    }
}

/// What one whole edit does: all of its replacements accepted, or none.
pub open spec fn edit_result(ps: Seq<PatchV>, len: int, rs: Seq<PatchV>) -> (Seq<PatchV>, ApplyOutcome) {
    let (psn, o) = edit_try(ps, len, rs, 0);
    if o == ApplyOutcome::Applied {
        (psn, ApplyOutcome::Applied)
    } else {
        (ps, o)
    }
}

/// The patch set, fix count and error texts after trying the edits
/// `edits[k-1]`, `edits[k-2]`, ..., `edits[0]`, in that order (the reverse
/// of discovery order), against accepted patches `ps`.
pub open spec fn edits_result(ps: Seq<PatchV>, len: int, edits: Seq<PendingEditV>, k: int) -> (
    Seq<PatchV>,
    int,
    Seq<Seq<u8>>,
)
    decreases k,
{
    if k <= 0 || k > edits.len() {
        (ps, 0, Seq::empty())
    } else {
        let e = edits[k - 1];
        let (ps1, o) = edit_result(ps, len, e.patches);
        let (ps2, fixes, errs) = edits_result(ps1, len, edits, k - 1);
        let own_err: Seq<Seq<u8>> = match (o, e.rendered) {
            (ApplyOutcome::Conflict, Some(t)) => seq![t],
            _ => Seq::empty(),
        };
        (ps2, fixes + if o == ApplyOutcome::Applied { 1int } else { 0int }, own_err + errs)
    }
}

/// What one pass did to one file.
pub struct FileReport {
    /// The file the edits named.
    pub file: Vec<u8>,
    /// The new text, present exactly when at least one whole edit applied;
    /// the caller writes it back.
    pub new_code: Option<Vec<u8>>,
    /// How many edits applied in full.
    pub fixes: u64,
    /// Rendered text of the edits that collided.
    pub errors: Vec<Vec<u8>>,
}

/// Apply one edit — all of its replacements, in order — to the file under
/// repair.  On `Unchanged` or `Conflict` the file's accepted patches are
/// exactly what they were before the edit: no half of an edit survives.
pub fn apply_edit(ff: &mut FileFix, e: &PendingEdit) -> (r: ApplyOutcome)
    requires
        old(ff).wf(),
    ensures
        final(ff).wf(),
        final(ff).text() == old(ff).text(),
        (final(ff).accepted(), r) == edit_result(
            old(ff).accepted(),
            old(ff).text().len() as int,
            e@.patches,
        ),
{
    let ghost ps0 = ff.accepted();
    let ghost len = ff.text().len() as int;
    let ghost rs = e@.patches;
    let snap = ff.checkpoint();
    let mut i: usize = 0;
    while i < e.patches.len()
        invariant
            0 <= i <= e.patches.len(),
            rs == e@.patches,
            ff.wf(),
            ff.text() == old(ff).text(),
            len == old(ff).text().len() as int,
            snap@.map_values(|p: Patch| p@) == ps0,
            edit_try(ps0, len, rs, 0) == edit_try(ff.accepted(), len, rs, i as int),
        decreases e.patches.len() - i,
    {
        let p = &e.patches[i];
        let p2 = Patch { start: p.start, end: p.end, text: crate::patch::copy_bytes(&p.text) };
        assert(p2@ == rs[i as int]);
        let ghost before = ff.accepted();
        let o = ff.apply(p2);
        match o {
            ApplyOutcome::Applied => {
                proof {
                    assert(apply_outcome(before, len, rs[i as int]) == ApplyOutcome::Applied);
                    assert(edit_try(before, len, rs, i as int) == edit_try(
                        ff.accepted(),
                        len,
                        rs,
                        i as int + 1,
                    ));
                }
            },
            ApplyOutcome::Unchanged => {
                proof {
                    assert(apply_outcome(before, len, rs[i as int]) == ApplyOutcome::Unchanged);
                    assert(edit_try(before, len, rs, i as int) == (
                        before,
                        ApplyOutcome::Unchanged,
                    ));
                    assert(edit_try(ps0, len, rs, 0).1 == ApplyOutcome::Unchanged);
                }
                ff.restore(snap);
                return ApplyOutcome::Unchanged;
            },
            ApplyOutcome::Conflict => {
                proof {
                    assert(apply_outcome(before, len, rs[i as int]) == ApplyOutcome::Conflict);
                    assert(edit_try(before, len, rs, i as int) == (
                        before,
                        ApplyOutcome::Conflict,
                    ));
                    assert(edit_try(ps0, len, rs, 0).1 == ApplyOutcome::Conflict);
                }
                ff.restore(snap);
                return ApplyOutcome::Conflict;
            },
        }
        i += 1;
    }
    assert(edit_try(ff.accepted(), len, rs, e.patches@.len() as int) == (
        ff.accepted(),
        ApplyOutcome::Applied,
    ));
    ApplyOutcome::Applied
}

/// Apply one file's edits, in reverse discovery order, to its current
/// text.  Returns the new text when at least one whole edit applied, the
/// number of edits that applied in full, and the rendered text of every
/// edit that collided, in processing order.
pub fn apply_file_edits(file: Vec<u8>, code: &Vec<u8>, edits: &Vec<PendingEdit>) -> (r: FileReport)
    ensures
        ({
            let (psf, fixes, errs) = edits_result(
                Seq::empty(),
                code@.len() as int,
                edits@.map_values(|e: PendingEdit| e@),
                edits@.len() as int,
            );
            &&& r.file@ == file@
            &&& r.fixes as int == fixes
            &&& r.errors@.map_values(|t: Vec<u8>| t@) == errs
            &&& (match r.new_code {
                Some(c) => psf.len() > 0 && c@ == rendered(code@, psf),
                None => psf.len() == 0,
            })
        }),
{
    let ghost len = code@.len() as int;
    let ghost edsv = edits@.map_values(|e: PendingEdit| e@);
    let mut ff = FileFix::new(crate::patch::copy_bytes(code));
    let mut fixes: u64 = 0;
    let mut errors: Vec<Vec<u8>> = Vec::new();
    let mut k: usize = edits.len();
    while k > 0
        invariant
            0 <= k <= edits.len(),
            edsv == edits@.map_values(|e: PendingEdit| e@),
            edsv.len() == edits@.len(),
            ff.wf(),
            ff.text() == code@,
            fixes as int <= edits@.len() - k,
            ({
                let (psf, fx, er) = edits_result(Seq::empty(), len, edsv, edsv.len() as int);
                let (psr, fxr, err) = edits_result(ff.accepted(), len, edsv, k as int);
                &&& psf == psr
                &&& fx == fixes + fxr
                &&& er == errors@.map_values(|t: Vec<u8>| t@) + err
            }),
        decreases k,
    {
        k -= 1;
        let e = &edits[k];
        let ghost before = ff.accepted();
        let ghost errs_before = errors@.map_values(|t: Vec<u8>| t@);
        let o = apply_edit(&mut ff, e);
        proof {
            assert(edsv[k as int] == e@);
            // One unfolding of the reverse-order fold.
            assert(edits_result(before, len, edsv, k as int + 1) == ({
                let (ps1, o1) = edit_result(before, len, edsv[k as int].patches);
                let (ps2, fx2, er2) = edits_result(ps1, len, edsv, k as int);
                let own: Seq<Seq<u8>> = match (o1, edsv[k as int].rendered) {
                    (ApplyOutcome::Conflict, Some(t)) => seq![t],
                    _ => Seq::empty(),
                };
                (ps2, fx2 + if o1 == ApplyOutcome::Applied { 1int } else { 0int }, own + er2)
            }));
        }
        match o {
            ApplyOutcome::Applied => {
                assert(fixes as int + 1 <= edits@.len() - k);
                fixes = fixes + 1;
            },
            ApplyOutcome::Conflict => {
                match &e.rendered {
                    Some(t) => {
                        errors.push(crate::patch::copy_bytes(t));
                    },
                    None => {},
                }
            },
            ApplyOutcome::Unchanged => {},
        }
        proof {
            let (psr1, fxr1, err1) = edits_result(ff.accepted(), len, edsv, k as int);
            let own: Seq<Seq<u8>> = match (o, edsv[k as int].rendered) {
                (ApplyOutcome::Conflict, Some(t)) => seq![t],
                _ => Seq::empty(),
            };
            assert(errs_before + (own + err1) =~= (errs_before + own) + err1);
            if o is Conflict && e@.rendered is Some {
                assert(errs_before + own =~= errs_before.push(e@.rendered->Some_0));
            } else {
                assert(errs_before + own =~= errs_before);
            }
        }
    }
    let modified = ff.modified();
    let new_code = if modified {
        Some(ff.finish())
    } else {
        None
    };
    FileReport { file, new_code, fixes, errors }
}

/// A patch recorded in `ps` is still recorded after the replacements of an
/// edit are tried against it.
proof fn lemma_edit_try_keeps(ps: Seq<PatchV>, len: int, rs: Seq<PatchV>, i: int, q: PatchV)
    requires
        crate::patch::has_identical(ps, q),
    ensures
        crate::patch::has_identical(edit_try(ps, len, rs, i).0, q),
    decreases rs.len() - i,
{
    if i < 0 || i >= rs.len() {
    } else {
        match apply_outcome(ps, len, rs[i]) {
            ApplyOutcome::Applied => {
                lemma_insert_preserves_identical(ps, rs[i], q);
                lemma_edit_try_keeps(apply_patches(ps, len, rs[i]), len, rs, i + 1, q);
            },
            ApplyOutcome::Unchanged => {},
            ApplyOutcome::Conflict => {},
        }
    }
}

/// Law of idempotence for one whole edit: once an edit has applied in
/// full, trying the same edit again reports `Unchanged` and leaves the
/// accepted patches — and so the rendered text — exactly as they were;
/// the re-application counts no fix.
pub proof fn lemma_edit_idempotent(ps: Seq<PatchV>, len: int, rs: Seq<PatchV>)
    requires
        edit_result(ps, len, rs).1 == ApplyOutcome::Applied,
        rs.len() > 0,
    ensures
        edit_result(edit_result(ps, len, rs).0, len, rs) == (
            edit_result(ps, len, rs).0,
            ApplyOutcome::Unchanged,
        ),
{
    let psn = edit_result(ps, len, rs).0;
    // The edit applied in full, so its first replacement was accepted
    // afresh and is recorded in the final set.
    assert(apply_outcome(ps, len, rs[0]) == ApplyOutcome::Applied);
    assert(patch_in_bounds(rs[0], len));
    let ps1 = apply_patches(ps, len, rs[0]);
    assert(ps1 == insert_sorted(ps, rs[0]));
    lemma_insert_contains(ps, rs[0]);
    lemma_edit_try_keeps(ps1, len, rs, 1, rs[0]);
    assert(crate::patch::has_identical(psn, rs[0]));
    // Re-trying the edit now stops at once: the first replacement is
    // already in place, and the whole edit reverts to a no-op.
    assert(apply_outcome(psn, len, rs[0]) == ApplyOutcome::Unchanged);
    assert(edit_try(psn, len, rs, 0) == (psn, ApplyOutcome::Unchanged));
}

} // verus!
