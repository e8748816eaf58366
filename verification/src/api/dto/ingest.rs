//! Requests and responses of ingestion.

use crate::api::validation::{
    complaints, expect, is_verdict, unless, verdict, Complaint, FieldError,
};
use crate::float::{at_least, f32_at_least, F32_ONE};
use crate::plugin::LlmHints;
use vstd::prelude::*;
use vstd::string::*;

verus! {

/// How a request has entities matched with known ones, where it differs from the configuration.
pub struct ResolutionOverride {
    /// `none` or `embedding`
    pub mode: Option<String>,
    /// The bits of a single-precision number from 0 to 1.
    pub threshold: Option<u32>,
    /// Whether only entities of one type are matched.
    pub match_type: Option<bool>,
}

/// The threshold, if there is one, is a number from 0 to 1.
pub open spec fn threshold_ok(r: Option<ResolutionOverride>) -> bool {
    match r {
        Some(o) => match o.threshold {
            Some(t) => f32_at_least(t, 0) && f32_at_least(F32_ONE, t),
            None => true,
        },
        None => true,
    }
}

fn check_threshold(r: &Option<ResolutionOverride>) -> (ok: bool)
    ensures
        ok == threshold_ok(*r),
{
    match r {
        Some(o) => match o.threshold {
            Some(t) => at_least(t, 0) && at_least(F32_ONE, t),
            None => true,
        },
        None => true,
    }
}

/// `POST /ingest/text`
pub struct IngestTextReq {
    pub text: String,
    pub resolution: Option<ResolutionOverride>,
    pub hints: Option<LlmHints>,
}

impl IngestTextReq {
    pub open spec fn problems(&self) -> Seq<Complaint> {
        unless(1 <= self.text@.len() <= 100_000, "text"@, "text must be 1–100k characters"@)
            + unless(
            threshold_ok(self.resolution),
            "resolution.threshold"@,
            "threshold must be between 0.0 and 1.0"@,
        )
    }

    /// The text has 1 to 100,000 characters, and a threshold is from 0 to 1.
    pub fn validate(&self) -> (r: Result<(), Vec<FieldError>>)
        ensures
            is_verdict(r, self.problems()),
    {
        let mut errors: Vec<FieldError> = Vec::new();
        let n: usize = self.text.as_str().unicode_len();
        expect(&mut errors, 1 <= n && n <= 100_000, "text", "text must be 1–100k characters");
        expect(
            &mut errors,
            check_threshold(&self.resolution),
            "resolution.threshold",
            "threshold must be between 0.0 and 1.0",
        );
        proof {
            assert(complaints(errors@) =~= self.problems());
        }
        verdict(errors)
    }
}

/// `POST /ingest/json`
pub struct IngestJsonReq {
    pub entities: Vec<serde_json::Value>,
    pub relations: Vec<serde_json::Value>,
    pub resolution: Option<ResolutionOverride>,
}

impl IngestJsonReq {
    pub open spec fn problems(&self) -> Seq<Complaint> {
        unless(
            1 <= self.entities@.len() <= 10_000,
            "entities"@,
            "entities must have 1–10k items"@,
        ) + unless(
            threshold_ok(self.resolution),
            "resolution.threshold"@,
            "threshold must be between 0.0 and 1.0"@,
        )
    }

    /// There are 1 to 10,000 entities, and a threshold is from 0 to 1.
    pub fn validate(&self) -> (r: Result<(), Vec<FieldError>>)
        ensures
            is_verdict(r, self.problems()),
    {
        let mut errors: Vec<FieldError> = Vec::new();
        let n: usize = self.entities.len();
        expect(&mut errors, 1 <= n && n <= 10_000, "entities", "entities must have 1–10k items");
        expect(
            &mut errors,
            check_threshold(&self.resolution),
            "resolution.threshold",
            "threshold must be between 0.0 and 1.0",
        );
        proof {
            assert(complaints(errors@) =~= self.problems());
        }
        verdict(errors)
    }
}

/// What was ingested.
pub struct IngestResponse {
    pub ingested: usize,
    pub new_nodes: usize,
    pub resolved: usize,
    pub delta_size: usize,
    pub merge_triggered: bool,
    pub message: Option<String>,
}

/// A threshold is a number from 0 to 1, where there is one.
pub open spec fn threshold_fits(r: Option<ResolutionOverride>) -> bool {
    r matches Some(o) ==> (o.threshold matches Some(t) ==> f32_at_least(t, 0) && f32_at_least(
        0x3f80_0000,
        t,
    ))
}

/// An ingestion of text is accepted exactly with a text of 1 to 100000 characters and a threshold
/// from 0 to 1, if any.
pub proof fn law_text_is_accepted(req: &IngestTextReq)
    ensures
        req.problems().len() == 0 <==> 1 <= req.text@.len() <= 100_000 && threshold_fits(
            req.resolution,
        ),
{
}

/// An ingestion of entities is accepted exactly with 1 to 10000 of them and a threshold from 0 to 1,
/// if any.
pub proof fn law_entities_are_accepted(req: &IngestJsonReq)
    ensures
        req.problems().len() == 0 <==> 1 <= req.entities@.len() <= 10_000 && threshold_fits(
            req.resolution,
        ),
{
}

} // verus!
