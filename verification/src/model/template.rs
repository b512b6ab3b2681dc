//! Templates.

use vstd::prelude::*;

use crate::format_string::FormatString;
use crate::model::types::{
    EffectiveLimits, Extensions, ModelExtension, ModelProfile, SpecificationRevision, TemplateSpecificationVersion,
    ValidationContext,
};
use crate::sessions::runner::Action;

verus! {

/// The definition of a job parameter.
#[derive(Debug)]
pub struct JobParameterDefinition {
    pub name: String,
    pub param_type: String,
    pub description: Option<String>,
}

/// The actions of an environment. The wrap hooks run in place of the actions
/// of a session.
#[derive(Debug)]
pub struct EnvironmentActions {
    pub on_enter: Option<Action>,
    pub on_exit: Option<Action>,
    pub on_wrap_env_enter: Option<Action>,
    pub on_wrap_task_run: Option<Action>,
    pub on_wrap_env_exit: Option<Action>,
}

/// An environment of a job or a step.
#[derive(Debug)]
pub struct Environment {
    pub name: String,
    pub description: Option<String>,
    pub actions: EnvironmentActions,
}

/// A step of a job.
#[derive(Debug)]
pub struct StepTemplate {
    pub name: String,
    pub step_environments: Option<Vec<Environment>>,
}

/// The template of a job.
#[derive(Debug)]
pub struct JobTemplate {
    pub specification_version: String,
    pub schema: Option<String>,
    pub extensions: Option<Vec<String>>,
    pub name: FormatString,
    pub description: Option<String>,
    pub parameter_definitions: Option<Vec<JobParameterDefinition>>,
    pub job_environments: Option<Vec<Environment>>,
    pub steps: Vec<StepTemplate>,
}

/// The template of an environment.
#[derive(Debug)]
pub struct EnvironmentTemplate {
    pub specification_version: String,
    pub extensions: Option<Vec<String>>,
    pub parameter_definitions: Option<Vec<JobParameterDefinition>>,
    pub environment: Environment,
}

/// The elements of an optional list.
pub open spec fn listed<T>(list: Option<Vec<T>>) -> Seq<T> {
    match list {
        Some(v) => v@,
        None => seq![],
    }
}

/// The known extensions among names.
pub open spec fn known_extensions(names: Seq<String>) -> Set<ModelExtension>
    decreases names.len(),
{
    if names.len() == 0 {
        Set::empty()
    } else {
        match ModelExtension::named(names.last()@) {
            Some(e) => known_extensions(names.drop_last()).insert(e),
            None => known_extensions(names.drop_last()),
        }
    }
}

/// Collects the known extensions among names.
pub fn collect_extensions(names: &Option<Vec<String>>) -> (r: Extensions)
    ensures
        r@ == known_extensions(listed(*names)),
{
    let mut extensions = Extensions::new();
    if let Some(names) = names {
        let mut i: usize = 0;
        assert(names@.take(0) =~= seq![]);
        while i < names.len()
            invariant
                i <= names@.len(),
                extensions@ == known_extensions(names@.take(i as int)),
            decreases names@.len() - i,
        {
            assert(names@.take(i + 1).drop_last() =~= names@.take(i as int));
            match ModelExtension::from_name(&names[i]) {
                Some(known) => extensions.insert(known),
                None => {},
            }
            i = i + 1;
        }
        assert(names@.take(i as int) =~= names@);
    }
    extensions
}

impl JobTemplate {
    /// The name of the job.
    pub fn name(&self) -> (r: &FormatString)
        ensures
            *r == self.name,
    {
        &self.name
    }

    /// The description of the job.
    pub fn description(&self) -> (r: Option<&str>)
        ensures
            match (r, self.description) {
                (Some(text), Some(description)) => text@ == description@,
                (None, None) => true,
                _ => false,
            },
    {
        match &self.description {
            Some(text) => Some(text.as_str()),
            None => None,
        }
    }

    /// The definitions of the job parameters.
    pub fn parameter_definitions_list(&self) -> (r: &[JobParameterDefinition])
        ensures
            r@ == listed(self.parameter_definitions),
    {
        match &self.parameter_definitions {
            Some(definitions) => definitions.as_slice(),
            None => {
                let none: &[JobParameterDefinition] = &[];
                assert(none@ =~= seq![]);
                none
            },
        }
    }

    /// The profile that the template asks for: the revision of its version and
    /// the known ones among its extensions. An unknown version counts as the
    /// first revision.
    pub fn profile(&self) -> (r: ModelProfile)
        ensures
            r.spec_revision() == SpecificationRevision::V2023_09,
            r.spec_extensions() == known_extensions(listed(self.extensions)),
    {
        let revision = match TemplateSpecificationVersion::from_name(&self.specification_version) {
            Some(version) => version.revision(),
            None => SpecificationRevision::V2023_09,
        };
        ModelProfile::new(revision).with_extensions(collect_extensions(&self.extensions))
    }

    /// The context that validates the template by its own profile, without
    /// limits of the caller.
    pub fn default_validation_context(&self) -> (r: ValidationContext)
        ensures
            r.profile.spec_revision() == SpecificationRevision::V2023_09,
            r.profile.spec_extensions() == known_extensions(listed(self.extensions)),
            r.limits == EffectiveLimits::none(),
    {
        ValidationContext::from_profile(self.profile())
    }
}

/// The order in which extensions are listed does not matter, nor do names that
/// are not known: an extension is enabled if and only if its name is listed.
pub proof fn extensions_are_those_listed(names: Seq<String>, e: ModelExtension)
    ensures
        known_extensions(names).contains(e) <==> exists|i: int|
            0 <= i < names.len() && ModelExtension::named(#[trigger] names[i]@) == Some(e),
    decreases names.len(),
{
    if names.len() > 0 {
        let shorter = names.drop_last();
        extensions_are_those_listed(shorter, e);
        if known_extensions(names).contains(e) {
            if ModelExtension::named(names.last()@) == Some(e) {
                assert(ModelExtension::named(names[names.len() - 1]@) == Some(e));
            } else {
                let i = choose|i: int|
                    0 <= i < shorter.len() && ModelExtension::named(#[trigger] shorter[i]@) == Some(e);
                assert(names[i] == shorter[i]);
            }
        }
        if exists|i: int| 0 <= i < names.len() && ModelExtension::named(#[trigger] names[i]@) == Some(e) {
            let i = choose|i: int|
                0 <= i < names.len() && ModelExtension::named(#[trigger] names[i]@) == Some(e);
            if i < shorter.len() {
                assert(shorter[i] == names[i]);
            }
        }
    }
}

} // verus!
