//! The trusted boundary to the external suggestion source.
//!
//! Decoded compiler diagnostics arrive as `rustfix` values; the functions
//! here call into that crate and convert what comes back into the plain
//! data the verified engine works on.  What each call returns depends on
//! its arguments alone, so the results carry names (`rendered_of`,
//! `suggestion_of`) that the engine's contracts speak of exactly; nothing
//! further is assumed of their contents — the engine's own classification
//! decides what is applied.

use vstd::prelude::*;
use crate::engine::{BuildUnit, Event, EventV};
use crate::suggest::{Diag, DiagV};

verus! {

#[verifier::external_type_specification]
#[verifier::external_body]
pub struct ExDiagnostic(rustfix::diagnostics::Diagnostic);

#[verifier::external_type_specification]
#[verifier::external_body]
pub struct ExSuggestion(rustfix::Suggestion);

/// The rendered text of a diagnostic, as the external source carries it.
pub uninterp spec fn rendered_of(d: rustfix::diagnostics::Diagnostic) -> Option<Seq<u8>>;

/// The mechanically applicable edit the external source extracts from a
/// diagnostic under the chosen safety filter, converted field for field to
/// plain spans and bytes.
pub uninterp spec fn suggestion_of(d: rustfix::diagnostics::Diagnostic, everything: bool) -> Option<
    crate::suggest::ProposalV,
>;

/// Relies on the public `rendered` field of rustfix's Diagnostic: the
/// human-readable text of the diagnostic, when the compiler rendered one;
/// a function of the diagnostic alone.
#[verifier::external_body]
fn rendered_bytes(d: &rustfix::diagnostics::Diagnostic) -> (r: Option<Vec<u8>>)
    ensures
        (match r {
            Some(t) => Some(t@),
            None => None,
        }) == rendered_of(*d),
{
    d.rendered.clone().map(String::into_bytes)
}

/// Relies on rustfix::collect_suggestions: under the chosen filter it
/// keeps the diagnostic's machine-applicable replacements, if any, as a
/// function of the diagnostic alone; the body converts the public fields
/// of the returned Suggestion one for one into plain spans and bytes.
#[verifier::external_body]
fn collect_plain(d: &rustfix::diagnostics::Diagnostic, everything: bool) -> (r: Option<
    crate::suggest::Proposal,
>)
    ensures
        (match r {
            Some(p) => Some(p@),
            None => None,
        }) == suggestion_of(*d, everything),
{
    let filter = if everything { rustfix::Filter::Everything } else { rustfix::Filter::MachineApplicableOnly };
    let found = rustfix::collect_suggestions(d, &std::collections::HashSet::<String>::new(), filter);
    found.map(|s| crate::suggest::Proposal {
        solutions: s.solutions.iter().map(|sol| crate::suggest::Solution {
            replacements: sol.replacements.iter().map(|rp| crate::suggest::Replacement {
                file_name: rp.snippet.file_name.clone().into_bytes(),
                start: rp.snippet.range.start,
                end: rp.snippet.range.end,
                text: rp.replacement.clone().into_bytes(),
            }).collect(),
        }).collect(),
    })
}

/// One diagnostic message, reduced to the unit it belongs to, its rendered
/// text, and its suggested edit as plain spans and bytes.
pub fn message_event(
    unit: BuildUnit,
    d: &rustfix::diagnostics::Diagnostic,
    everything: bool,
) -> (r: Event)
    ensures
        r@ == (EventV::Message {
            unit: unit@,
            diag: DiagV { rendered: rendered_of(*d), suggestion: suggestion_of(*d, everything) },
        }),
{
    let rendered = rendered_bytes(d);
    let suggestion = collect_plain(d, everything);
    let ev = Event::Message { unit, diag: Diag { rendered, suggestion } };
    proof {
        assert(ev@ =~~= (EventV::Message {
            unit: unit@,
            diag: DiagV { rendered: rendered_of(*d), suggestion: suggestion_of(*d, everything) },
        }));
    }
    ev
}

} // verus!
