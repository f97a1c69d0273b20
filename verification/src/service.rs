//! The per-request pipeline: gate, scan, resolve.
//!
//! [`plan_update`] is the pure half of a request: from the query and a
//! directory listing it decides the outcome — unsupported, no update, or
//! which signature file to fetch.  The caller then reads that file and its
//! timestamp and completes the response with
//! [`crate::response::finish_update`].  Whether the directory could be read
//! at all is the caller's concern: a listing exists only once it could.

use vstd::prelude::*;

use crate::gate::{gate_allows, is_supported};
use crate::resolver::{is_newer, resolve, selected_over};
use crate::response::UpdateDescriptor;
use crate::scanner::{candidates_of, scan_candidates, CandidateView};

verus! {

/// What a request should do next, before any file content is read.
pub enum UpdatePlan {
    /// The app, platform or arch is not on the allow-lists: reject, touch
    /// nothing.
    NotSupported,
    /// A valid request, but no candidate is strictly newer: an ordinary
    /// outcome, not an error.
    NoUpdate,
    /// Offer this candidate: read its signature file and build the response.
    Fetch { file_name: String, version: String },
}

/// The candidate a `Fetch` plan names is drawn from the listing, is strictly
/// newer than the caller's version, and wins against every other qualifying
/// candidate (maximal version, smallest file name on a tie).
pub open spec fn fetch_ok(c: CandidateView, cands: Seq<CandidateView>, cur: Seq<char>) -> bool {
    &&& exists|j: int| 0 <= j < cands.len() && #[trigger] cands[j] == c
    &&& is_newer(c, cur)
    &&& forall|j: int|
        0 <= j < cands.len() && #[trigger] is_newer(cands[j], cur) ==> selected_over(c, cands[j])
}

/// Decide a request from the query and the directory listing alone.
///
/// `NotSupported` depends on the allow-lists alone: whatever the listing
/// holds — and whether or not the release root was readable — an unsupported
/// query is rejected.  Callers check [`is_supported`] first and only list
/// the directory for supported queries.
pub fn plan_update(
    app: &str,
    platform: &str,
    arch: &str,
    current_version: &str,
    listing: &Vec<String>,
    allowed_apps: &Vec<String>,
) -> (r: UpdatePlan)
    ensures
        (r is NotSupported) <==> !gate_allows(app@, platform@, arch@, allowed_apps.deep_view()),
        (r is NoUpdate) <==> (gate_allows(app@, platform@, arch@, allowed_apps.deep_view())
            && (forall|j: int|
            0 <= j < candidates_of(listing.deep_view()).len() ==> !#[trigger] is_newer(
                candidates_of(listing.deep_view())[j],
                current_version@,
            ))),
        r matches UpdatePlan::Fetch { file_name, version } ==> fetch_ok(
            (CandidateView { file_name: file_name@, version: version@ }),
            candidates_of(listing.deep_view()),
            current_version@,
        ),
        r matches UpdatePlan::Fetch { file_name, version } ==> crate::scanner::has_sig_suffix(
            file_name@,
        ) && crate::version::valid_version(version@),
        (gate_allows(app@, platform@, arch@, allowed_apps.deep_view()) && exists|j: int|
            0 <= j < candidates_of(listing.deep_view()).len() && #[trigger] is_newer(
                candidates_of(listing.deep_view())[j],
                current_version@,
            )) ==> r is Fetch,
{
    proof {
        crate::scanner::lemma_candidates_wf(listing.deep_view());
    }
    if !is_supported(app, platform, arch, allowed_apps) {
        return UpdatePlan::NotSupported;
    }
    let cands = scan_candidates(listing);
    let ghost cviews = candidates_of(listing.deep_view());
    proof {
        assert(cands@.map_values(|c: crate::scanner::Candidate| c@) == cviews);
        assert(cands@.len() == cviews.len());
        assert(forall|j: int| 0 <= j < cands@.len() ==> #[trigger] cands@[j]@ == cviews[j]);
    }
    match resolve(&cands, current_version) {
        None => UpdatePlan::NoUpdate,
        Some(i) => {
            let file_name = cands[i].file_name.clone();
            let version = cands[i].version.clone();
            proof {
                assert(cviews[i as int] == cands@[i as int]@);
                assert((CandidateView { file_name: file_name@, version: version@ })
                    == cviews[i as int]);
                assert(crate::scanner::has_sig_suffix(cviews[i as int].file_name));
                assert(crate::version::valid_version(cviews[i as int].version));
            }
            UpdatePlan::Fetch { file_name, version }
        },
    }
}

/// The full outcome of a request, once any file content has been read.
pub enum ResolutionOutcome {
    NotSupported,
    NoUpdate,
    Available(UpdateDescriptor),
}

impl ResolutionOutcome {
    /// The HTTP status each outcome maps to: 404 for an unsupported query,
    /// 204 for "you are up to date", 200 with a body for an offer.
    pub fn status_code(&self) -> (c: u16)
        ensures
            self is NotSupported ==> c == 404,
            self is NoUpdate ==> c == 204,
            self is Available ==> c == 200,
    {
        match self {
            ResolutionOutcome::NotSupported => 404,
            ResolutionOutcome::NoUpdate => 204,
            ResolutionOutcome::Available(_) => 200,
        }
    }
}

} // verus!
