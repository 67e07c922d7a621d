//! Structural classification of one diagnostic's suggested edit.
//!
//! A suggestion is an ordered list of solutions, each an ordered list of
//! replacements; it is safe to apply mechanically only when it has at least
//! one replacement, every replacement across every solution names one and
//! the same file, and that file does not lie under a protected directory.
//! Anything else is demoted to plain error text.

use vstd::prelude::*;
use crate::patch::{Patch, PatchV, copy_bytes, bytes_eq_slice};

verus! {

/// One candidate replacement: a span of `file_name` and the new text.
pub struct Replacement {
    pub file_name: Vec<u8>,
    pub start: usize,
    pub end: usize,
    pub text: Vec<u8>,
}

pub struct ReplacementV {
    pub file_name: Seq<u8>,
    pub start: int,
    pub end: int,
    pub text: Seq<u8>,
}

impl View for Replacement {
    type V = ReplacementV;

    open spec fn view(&self) -> ReplacementV {
        ReplacementV {
            file_name: self.file_name@,
            start: self.start as int,
            end: self.end as int,
            text: self.text@,
        }
    }
}

/// One way to resolve the diagnostic: a list of replacements.
pub struct Solution {
    pub replacements: Vec<Replacement>,
}

pub struct SolutionV {
    pub replacements: Seq<ReplacementV>,
}

impl View for Solution {
    type V = SolutionV;

    open spec fn view(&self) -> SolutionV {
        SolutionV { replacements: self.replacements@.map_values(|r: Replacement| r@) }
    }
}

/// A suggested edit: alternative solutions, tried in order.
pub struct Proposal {
    pub solutions: Vec<Solution>,
}

pub struct ProposalV {
    pub solutions: Seq<SolutionV>,
}

impl View for Proposal {
    type V = ProposalV;

    open spec fn view(&self) -> ProposalV {
        ProposalV { solutions: self.solutions@.map_values(|s: Solution| s@) }
    }
}

/// One diagnostic reduced to what the engine reads: its rendered text and
/// its suggested edit, if the external suggestion source offered one.
pub struct Diag {
    pub rendered: Option<Vec<u8>>,
    pub suggestion: Option<Proposal>,
}

#[verifier::ext_equal]
pub struct DiagV {
    pub rendered: Option<Seq<u8>>,
    pub suggestion: Option<ProposalV>,
}

impl View for Diag {
    type V = DiagV;

    open spec fn view(&self) -> DiagV {
        DiagV {
            rendered: match self.rendered {
                Some(ref r) => Some(r@),
                None => None,
            },
            suggestion: match self.suggestion {
                Some(ref s) => Some(s@),
                None => None,
            },
        }
    }
}

/// An accepted edit, ready to apply: the spans and texts of all its
/// replacements in discovery order, plus the diagnostic's rendered text,
/// kept so that a failure to apply can still be reported.
pub struct PendingEdit {
    pub patches: Vec<Patch>,
    pub rendered: Option<Vec<u8>>,
}

#[verifier::ext_equal]
pub struct PendingEditV {
    pub patches: Seq<PatchV>,
    pub rendered: Option<Seq<u8>>,
}

impl View for PendingEdit {
    type V = PendingEditV;

    open spec fn view(&self) -> PendingEditV {
        PendingEditV {
            patches: self.patches@.map_values(|p: Patch| p@),
            rendered: match self.rendered {
                Some(ref r) => Some(r@),
                None => None,
            },
        }
    }
}


/// Whether two pending edits are byte-identical: the same replacement
/// spans and texts, and the same rendered text.
pub fn pending_edit_eq(a: &PendingEdit, b: &PendingEdit) -> (r: bool)
    ensures
        r == (a@ == b@),
{
    if a.patches.len() != b.patches.len() {
        assert(a@.patches.len() != b@.patches.len());
        return false;
    }
    let mut i: usize = 0;
    while i < a.patches.len()
        invariant
            0 <= i <= a.patches.len(),
            a.patches@.len() == b.patches@.len(),
            forall|j: int| 0 <= j < i ==> a@.patches[j] == b@.patches[j],
        decreases a.patches.len() - i,
    {
        let pa = &a.patches[i];
        let pb = &b.patches[i];
        if !(pa.start == pb.start && pa.end == pb.end && bytes_eq_slice(&pa.text, &pb.text)) {
            assert(a@.patches[i as int] != b@.patches[i as int]);
            assert(a@.patches != b@.patches);
            return false;
        }
        assert(a@.patches[i as int] == b@.patches[i as int]);
        i += 1;
    }
    proof {
        assert(a@.patches =~= b@.patches);
    }
    let rendered_same = match (&a.rendered, &b.rendered) {
        (Some(ra), Some(rb)) => bytes_eq_slice(ra, rb),
        (None, None) => true,
        _ => false,
    };
    if rendered_same {
        proof {
            assert(a@ =~~= b@);
        }
        true
    } else {
        assert(a@.rendered != b@.rendered);
        false
    }
}

/// Some solution holds at least one replacement.
pub open spec fn has_replacement(s: ProposalV) -> bool {
    exists|i: int| 0 <= i < s.solutions.len() && (#[trigger] s.solutions[i]).replacements.len() > 0
}

/// Every replacement across every solution names the file `f`.
pub open spec fn all_same_file(s: ProposalV, f: Seq<u8>) -> bool {
    forall|i: int, j: int|
        0 <= i < s.solutions.len() && 0 <= j < (#[trigger] s.solutions[i]).replacements.len()
            ==> (#[trigger] s.solutions[i].replacements[j]).file_name == f
}

/// `f` lies under the directory `d`: `d` is a non-empty prefix of `f` that
/// ends on a path-component boundary (the byte 47 is `/`).
pub open spec fn path_under(f: Seq<u8>, d: Seq<u8>) -> bool {
    &&& d.len() > 0
    &&& f.len() >= d.len()
    &&& f.subrange(0, d.len() as int) == d
    &&& (f.len() == d.len() || f[d.len() as int] == 47 || d[d.len() as int - 1] == 47)
}

/// The protected directories, by value.
pub open spec fn dirs_view(s: Seq<Vec<u8>>) -> Seq<Seq<u8>> {
    s.map_values(|d: Vec<u8>| d@)
}

/// `f` lies under one of the protected directories.
pub open spec fn is_protected(f: Seq<u8>, dirs: Seq<Seq<u8>>) -> bool {
    exists|i: int| 0 <= i < dirs.len() && path_under(f, #[trigger] dirs[i])
}

/// The suggestion may be applied mechanically: it has a replacement, all
/// replacements name one file, and that file is not protected.
pub open spec fn acceptable(s: ProposalV, dirs: Seq<Seq<u8>>) -> bool {
    has_replacement(s) && exists|f: Seq<u8>| #[trigger] all_same_file(s, f) && !is_protected(
        f,
        dirs,
    )
}

/// The spans and texts of all replacements, solutions in order.
pub open spec fn flat_patches(sols: Seq<SolutionV>) -> Seq<PatchV>
    decreases sols.len(),
{
    if sols.len() == 0 {
        Seq::empty()
    } else {
        flat_patches(sols.drop_last()) + patches_of(sols.last().replacements)
    }
}

pub open spec fn patches_of(rs: Seq<ReplacementV>) -> Seq<PatchV> {
    rs.map_values(|r: ReplacementV| PatchV { start: r.start, end: r.end, text: r.text })
}

/// What classification decided for one diagnostic.
pub enum Classified {
    /// The edit may be applied to `file`.
    Accepted { file: Vec<u8>, edit: PendingEdit },
    /// The edit may not; the rendered text, when there is one, is kept as a
    /// plain error.
    Rejected { rendered: Option<Vec<u8>> },
}

/// Whether `f` lies under `d`.
pub fn path_is_under(f: &Vec<u8>, d: &Vec<u8>) -> (r: bool)
    ensures
        r == path_under(f@, d@),
{
    if d.len() == 0 || f.len() < d.len() {
        return false;
    }
    let mut i: usize = 0;
    while i < d.len()
        invariant
            i <= d.len() <= f.len(),
            forall|j: int| 0 <= j < i ==> f@[j] == d@[j],
        decreases d.len() - i,
    {
        if f[i] != d[i] {
            assert(f@.subrange(0, d@.len() as int)[i as int] != d@[i as int]);
            return false;
        }
        i += 1;
    }
    proof {
        assert(f@.subrange(0, d@.len() as int) =~= d@);
    }
    f.len() == d.len() || f[d.len()] == 47 || d[d.len() - 1] == 47
}

/// Whether `f` lies under one of `dirs`.
pub fn is_protected_path(f: &Vec<u8>, dirs: &Vec<Vec<u8>>) -> (r: bool)
    ensures
        r == is_protected(f@, dirs_view(dirs@)),
{
    let mut i: usize = 0;
    while i < dirs.len()
        invariant
            i <= dirs.len(),
            forall|j: int| 0 <= j < i ==> !path_under(f@, dirs_view(dirs@)[j]),
        decreases dirs.len() - i,
    {
        if path_is_under(f, &dirs[i]) {
            assert(path_under(f@, dirs_view(dirs@)[i as int]));
            return true;
        }
        i += 1;
    }
    false
}

/// Classify one diagnostic.  The edit is accepted exactly when a suggestion
/// is present and `acceptable`; otherwise the rendered text is kept.
pub fn classify(diag: Diag, dirs: &Vec<Vec<u8>>) -> (r: Classified)
    ensures
        (r is Accepted) <==> (diag@.suggestion is Some && acceptable(
            diag@.suggestion->Some_0,
            dirs_view(dirs@),
        )),
        r matches Classified::Accepted { file, edit } ==> {
            &&& all_same_file(diag@.suggestion->Some_0, file@)
            &&& !is_protected(file@, dirs_view(dirs@))
            &&& edit@.patches == flat_patches(diag@.suggestion->Some_0.solutions)
            &&& edit@.rendered == diag@.rendered
        },
        r matches Classified::Rejected { rendered } ==> (match rendered {
            Some(t) => diag@.rendered == Some(t@),
            None => diag@.rendered is None,
        }),
{
    let Diag { rendered, suggestion } = diag;
    let s = match suggestion {
        Some(s) => s,
        None => {
            return Classified::Rejected { rendered };
        },
    };
    // Find the file named by the first replacement of the first non-empty
    // solution.
    let ghost sv = s@;
    let mut i0: usize = 0;
    while i0 < s.solutions.len() && s.solutions[i0].replacements.len() == 0
        invariant
            0 <= i0 <= s.solutions.len(),
            sv == s@,
            forall|j: int| 0 <= j < i0 ==> (#[trigger] sv.solutions[j]).replacements.len() == 0,
        decreases s.solutions.len() - i0,
    {
        i0 += 1;
    }
    if i0 == s.solutions.len() {
        proof {
            assert(!has_replacement(sv));
        }
        return Classified::Rejected { rendered };
    }
    let file = copy_bytes(&s.solutions[i0].replacements[0].file_name);
    assert(sv.solutions[i0 as int].replacements[0].file_name == file@);
    assert(has_replacement(sv));
    // Every replacement must name that same file.
    let mut i: usize = 0;
    while i < s.solutions.len()
        invariant
            0 <= i <= s.solutions.len(),
            sv == s@,
            file@ == sv.solutions[i0 as int].replacements[0].file_name,
            0 <= i0 < sv.solutions.len(),
            sv.solutions[i0 as int].replacements.len() > 0,
            forall|a: int, b: int|
                0 <= a < i && 0 <= b < (#[trigger] sv.solutions[a]).replacements.len()
                    ==> (#[trigger] sv.solutions[a].replacements[b]).file_name == file@,
        decreases s.solutions.len() - i,
    {
        let mut j: usize = 0;
        while j < s.solutions[i].replacements.len()
            invariant
                0 <= i < s.solutions.len(),
                0 <= j <= s.solutions[i as int].replacements@.len(),
                sv == s@,
                file@ == sv.solutions[i0 as int].replacements[0].file_name,
                0 <= i0 < sv.solutions.len(),
                sv.solutions[i0 as int].replacements.len() > 0,
                forall|b: int|
                    0 <= b < j ==> (#[trigger] sv.solutions[i as int].replacements[b]).file_name
                        == file@,
            decreases s.solutions[i as int].replacements.len() - j,
        {
            if !bytes_eq_slice(&s.solutions[i].replacements[j].file_name, &file) {
                proof {
                    let bi = i as int;
                    let bj = j as int;
                    assert(sv.solutions[bi].replacements[bj].file_name != file@);
                    assert forall|f: Seq<u8>| !all_same_file(sv, f) by {
                        if all_same_file(sv, f) {
                            assert(sv.solutions[i0 as int].replacements[0].file_name == f);
                            assert(sv.solutions[bi].replacements[bj].file_name == f);
                        }
                    }
                }
                return Classified::Rejected { rendered };
            }
            j += 1;
        }
        i += 1;
    }
    assert(all_same_file(sv, file@));
    if is_protected_path(&file, dirs) {
        proof {
            assert forall|f: Seq<u8>| all_same_file(sv, f) implies is_protected(
                f,
                dirs_view(dirs@),
            ) by {
                assert(sv.solutions[i0 as int].replacements[0].file_name == f);
                assert(f == file@);
            }
        }
        return Classified::Rejected { rendered };
    }
    // Flatten the replacements into patches, in discovery order.
    let mut patches: Vec<Patch> = Vec::new();
    let mut a: usize = 0;
    while a < s.solutions.len()
        invariant
            0 <= a <= s.solutions.len(),
            sv == s@,
            patches@.map_values(|p: Patch| p@) == flat_patches(sv.solutions.take(a as int)),
        decreases s.solutions.len() - a,
    {
        let mut b: usize = 0;
        while b < s.solutions[a].replacements.len()
            invariant
                0 <= a < s.solutions.len(),
                0 <= b <= s.solutions[a as int].replacements@.len(),
                sv == s@,
                patches@.map_values(|p: Patch| p@) == flat_patches(sv.solutions.take(a as int))
                    + patches_of(sv.solutions[a as int].replacements.take(b as int)),
            decreases s.solutions[a as int].replacements.len() - b,
        {
            let rep = &s.solutions[a].replacements[b];
            let p = Patch { start: rep.start, end: rep.end, text: copy_bytes(&rep.text) };
            assert(p@ == patches_of(sv.solutions[a as int].replacements)[b as int]);
            let ghost pv = p@;
            let ghost before = patches@.map_values(|p: Patch| p@);
            patches.push(p);
            proof {
                let rs = sv.solutions[a as int].replacements;
                let now = patches@.map_values(|p: Patch| p@);
                assert(rs.take(b as int + 1) =~= rs.take(b as int).push(rs[b as int]));
                assert(patches_of(rs.take(b as int + 1)) =~~= patches_of(rs.take(b as int)).push(
                    patches_of(rs)[b as int],
                ));
                assert forall|m: int| 0 <= m < now.len() implies now[m] == (flat_patches(
                    sv.solutions.take(a as int),
                ) + patches_of(rs.take(b as int + 1)))[m] by {
                    assert(now[m] == patches@[m]@);
                    if m < now.len() - 1 {
                        assert(before[m] == patches@[m]@);
                    } else {
                        assert(patches@[m]@ == pv);
                    }
                }
                assert(patches@.map_values(|p: Patch| p@) =~~= flat_patches(
                    sv.solutions.take(a as int),
                ) + patches_of(rs.take(b as int + 1)));
            }
            b += 1;
        }
        proof {
            let rs = sv.solutions[a as int].replacements;
            assert(rs.take(rs.len() as int) =~~= rs);
            assert(sv.solutions.take(a as int + 1).drop_last() =~= sv.solutions.take(a as int));
            assert(sv.solutions.take(a as int + 1).last() == sv.solutions[a as int]);
            assert(flat_patches(sv.solutions.take(a as int + 1)) == flat_patches(
                sv.solutions.take(a as int),
            ) + patches_of(rs));
        }
        a += 1;
    }
    proof {
        assert(sv.solutions.take(sv.solutions.len() as int) =~= sv.solutions);
        assert(exists|f: Seq<u8>|
            #[trigger] all_same_file(sv, f) && !is_protected(f, dirs_view(dirs@)));
    }
    Classified::Accepted { file, edit: PendingEdit { patches, rendered } }
}

/// A suggestion whose replacements name two distinct files is never
/// acceptable, whatever the protected directories are.
pub proof fn lemma_multi_file_rejected(
    s: ProposalV,
    dirs: Seq<Seq<u8>>,
    i1: int,
    j1: int,
    i2: int,
    j2: int,
)
    requires
        0 <= i1 < s.solutions.len(),
        0 <= j1 < s.solutions[i1].replacements.len(),
        0 <= i2 < s.solutions.len(),
        0 <= j2 < s.solutions[i2].replacements.len(),
        s.solutions[i1].replacements[j1].file_name != s.solutions[i2].replacements[j2].file_name,
    ensures
        !acceptable(s, dirs),
{
    assert forall|f: Seq<u8>| !all_same_file(s, f) by {
        if all_same_file(s, f) {
            assert(s.solutions[i1].replacements[j1].file_name == f);
            assert(s.solutions[i2].replacements[j2].file_name == f);
        }
    }
}

/// A suggestion all of whose replacements name a protected file is never
/// acceptable.
pub proof fn lemma_protected_rejected(s: ProposalV, dirs: Seq<Seq<u8>>, i: int, j: int)
    requires
        0 <= i < s.solutions.len(),
        0 <= j < s.solutions[i].replacements.len(),
        is_protected(s.solutions[i].replacements[j].file_name, dirs),
    ensures
        !acceptable(s, dirs),
{
    assert forall|f: Seq<u8>| all_same_file(s, f) implies is_protected(f, dirs) by {
        assert(s.solutions[i].replacements[j].file_name == f);
    }
}

} // verus!
