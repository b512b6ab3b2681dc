//! Validation of templates by the revision of their profile.

use vstd::prelude::*;

use crate::model::error::{validation_outcome, ModelError};
use crate::model::template::{EnvironmentTemplate, JobTemplate};
use crate::model::types::{SpecificationRevision, ValidationContext};
use crate::model::validate_v2023_09;
use crate::model::validate_v2023_09::{environment_findings, job_findings};

verus! {

/// Validates a job template by the rules of the revision that
/// [`validate_v2023_09`] holds: those on names, descriptions, parameters and wrap
/// hooks, and the limits of the caller.
pub fn validate_job_template(jt: &JobTemplate, ctx: &ValidationContext) -> (r: Result<
    (),
    ModelError,
>)
    ensures
        match ctx.profile.spec_revision() {
            SpecificationRevision::V2023_09 => {
                &&& validation_outcome(r) == job_findings(*jt, ctx.profile.spec_extensions(), ctx.limits)
                &&& r is Ok <==> job_findings(*jt, ctx.profile.spec_extensions(), ctx.limits).len() == 0
            },
        },
{
    match ctx.profile.revision() {
        SpecificationRevision::V2023_09 => validate_v2023_09::validate_job_template(jt, ctx),
    }
}

/// Validates an environment template by the rules of the revision that
/// [`validate_v2023_09`] holds.
pub fn validate_environment_template(et: &EnvironmentTemplate, ctx: &ValidationContext) -> (r: Result<
    (),
    ModelError,
>)
    ensures
        match ctx.profile.spec_revision() {
            SpecificationRevision::V2023_09 => {
                &&& validation_outcome(r) == environment_findings(*et, ctx.profile.spec_extensions(), ctx.limits)
                &&& r is Ok <==> environment_findings(*et, ctx.profile.spec_extensions(), ctx.limits).len() == 0
            },
        },
{
    match ctx.profile.revision() {
        SpecificationRevision::V2023_09 => validate_v2023_09::validate_environment_template(et, ctx),
    }
}

} // verus!
