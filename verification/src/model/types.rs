//! Revisions, extensions and profiles of the specification.

use vstd::prelude::*;

verus! {

/// A revision of the specification.
#[derive(Clone, Copy, Debug, PartialEq, Eq, Structural)]
pub enum SpecificationRevision {
    V2023_09,
}

/// The version that a template states.
#[derive(Clone, Copy, Debug, PartialEq, Eq, Structural)]
pub enum TemplateSpecificationVersion {
    JobTemplate2023_09,
    Environment2023_09,
}

impl TemplateSpecificationVersion {
    /// The version of a name.
    pub open spec fn named(text: Seq<char>) -> Option<TemplateSpecificationVersion> {
        if text == "jobtemplate-2023-09"@ {
            Some(TemplateSpecificationVersion::JobTemplate2023_09)
        } else if text == "environment-2023-09"@ {
            Some(TemplateSpecificationVersion::Environment2023_09)
        } else {
            None
        }
    }

    pub fn from_name(text: &String) -> (r: Option<TemplateSpecificationVersion>)
        ensures
            r == Self::named(text@),
    {
        if text.eq(&"jobtemplate-2023-09".to_owned()) {
            Some(TemplateSpecificationVersion::JobTemplate2023_09)
        } else if text.eq(&"environment-2023-09".to_owned()) {
            Some(TemplateSpecificationVersion::Environment2023_09)
        } else {
            None
        }
    }

    /// The revision that the version belongs to.
    pub fn revision(&self) -> (r: SpecificationRevision)
        ensures
            r == SpecificationRevision::V2023_09,
    {
        SpecificationRevision::V2023_09
    }
}

/// An extension of the specification.
#[derive(Clone, Copy, Debug, PartialEq, Eq, Structural)]
pub enum ModelExtension {
    Expr,
    TaskChunking,
    FeatureBundle1,
    WrapActions,
}

impl ModelExtension {
    /// The extension of a name.
    pub open spec fn named(text: Seq<char>) -> Option<ModelExtension> {
        if text == "EXPR"@ {
            Some(ModelExtension::Expr)
        } else if text == "TASK_CHUNKING"@ {
            Some(ModelExtension::TaskChunking)
        } else if text == "FEATURE_BUNDLE_1"@ {
            Some(ModelExtension::FeatureBundle1)
        } else if text == "WRAP_ACTIONS"@ {
            Some(ModelExtension::WrapActions)
        } else {
            None
        }
    }

    pub fn from_name(text: &String) -> (r: Option<ModelExtension>)
        ensures
            r == Self::named(text@),
    {
        if text.eq(&"EXPR".to_owned()) {
            Some(ModelExtension::Expr)
        } else if text.eq(&"TASK_CHUNKING".to_owned()) {
            Some(ModelExtension::TaskChunking)
        } else if text.eq(&"FEATURE_BUNDLE_1".to_owned()) {
            Some(ModelExtension::FeatureBundle1)
        } else if text.eq(&"WRAP_ACTIONS".to_owned()) {
            Some(ModelExtension::WrapActions)
        } else {
            None
        }
    }
}

/// A set of extensions.
#[derive(Clone, Copy, Debug, PartialEq, Eq, Structural)]
pub struct Extensions {
    expr: bool,
    task_chunking: bool,
    feature_bundle_1: bool,
    wrap_actions: bool,
}

impl View for Extensions {
    type V = Set<ModelExtension>;

    closed spec fn view(&self) -> Set<ModelExtension> {
        Set::new(
            |e: ModelExtension|
                match e {
                    ModelExtension::Expr => self.expr,
                    ModelExtension::TaskChunking => self.task_chunking,
                    ModelExtension::FeatureBundle1 => self.feature_bundle_1,
                    ModelExtension::WrapActions => self.wrap_actions,
                },
        )
    }
}

impl Extensions {
    /// No extension.
    pub fn new() -> (r: Extensions)
        ensures
            r@ == Set::<ModelExtension>::empty(),
    {
        let r = Extensions {
            expr: false,
            task_chunking: false,
            feature_bundle_1: false,
            wrap_actions: false,
        };
        assert(r@ =~= Set::empty());
        r
    }

    pub fn insert(&mut self, e: ModelExtension)
        ensures
            final(self)@ == old(self)@.insert(e),
    {
        match e {
            ModelExtension::Expr => {
                self.expr = true;
            },
            ModelExtension::TaskChunking => {
                self.task_chunking = true;
            },
            ModelExtension::FeatureBundle1 => {
                self.feature_bundle_1 = true;
            },
            ModelExtension::WrapActions => {
                self.wrap_actions = true;
            },
        }
        assert(self@ =~= old(self)@.insert(e));
    }

    pub fn contains(&self, e: ModelExtension) -> (r: bool)
        ensures
            r == self@.contains(e),
    {
        match e {
            ModelExtension::Expr => self.expr,
            ModelExtension::TaskChunking => self.task_chunking,
            ModelExtension::FeatureBundle1 => self.feature_bundle_1,
            ModelExtension::WrapActions => self.wrap_actions,
        }
    }
}

/// The language of a template: a revision and the extensions on top of it.
#[derive(Clone, Copy, Debug, PartialEq, Eq, Structural)]
pub struct ModelProfile {
    revision: SpecificationRevision,
    extensions: Extensions,
}

impl ModelProfile {
    pub closed spec fn spec_revision(self) -> SpecificationRevision {
        self.revision
    }

    pub closed spec fn spec_extensions(self) -> Set<ModelExtension> {
        self.extensions@
    }

    /// A revision without extensions.
    pub fn new(revision: SpecificationRevision) -> (r: ModelProfile)
        ensures
            r.spec_revision() == revision,
            r.spec_extensions() == Set::<ModelExtension>::empty(),
    {
        ModelProfile { revision, extensions: Extensions::new() }
    }

    /// The profile with these extensions.
    pub fn with_extensions(self, extensions: Extensions) -> (r: ModelProfile)
        ensures
            r.spec_revision() == self.spec_revision(),
            r.spec_extensions() == extensions@,
    {
        ModelProfile { extensions, ..self }
    }

    pub fn revision(&self) -> (r: SpecificationRevision)
        ensures
            r == self.spec_revision(),
    {
        self.revision
    }

    /// Whether an extension is enabled.
    pub fn has_extension(&self, e: ModelExtension) -> (r: bool)
        ensures
            r == self.spec_extensions().contains(e),
    {
        self.extensions.contains(e)
    }
}

/// The largest lengths of texts, in characters, and the largest counts.
#[derive(Clone, Copy, Debug, PartialEq, Eq, Structural)]
pub struct EffectiveLimits {
    pub max_job_name_len: usize,
    pub max_description_len: usize,
    pub max_param_count: usize,
    pub max_env_template_param_count: usize,
    pub max_identifier_len: usize,
    pub max_step_name_len: usize,
    pub max_env_name_len: usize,
}

impl EffectiveLimits {
    /// Limits that nothing exceeds.
    pub open spec fn none() -> EffectiveLimits {
        EffectiveLimits {
            max_job_name_len: usize::MAX,
            max_description_len: usize::MAX,
            max_param_count: usize::MAX,
            max_env_template_param_count: usize::MAX,
            max_identifier_len: usize::MAX,
            max_step_name_len: usize::MAX,
            max_env_name_len: usize::MAX,
        }
    }

    pub fn unlimited() -> (r: EffectiveLimits)
        ensures
            r == Self::none(),
    {
        EffectiveLimits {
            max_job_name_len: usize::MAX,
            max_description_len: usize::MAX,
            max_param_count: usize::MAX,
            max_env_template_param_count: usize::MAX,
            max_identifier_len: usize::MAX,
            max_step_name_len: usize::MAX,
            max_env_name_len: usize::MAX,
        }
    }
}

/// What a template is validated against: the language that it may use, and the
/// limits of the caller.
#[derive(Clone, Copy, Debug, PartialEq, Eq, Structural)]
pub struct ValidationContext {
    pub profile: ModelProfile,
    pub limits: EffectiveLimits,
}

impl ValidationContext {
    /// The context of a profile, without limits of the caller.
    pub fn from_profile(profile: ModelProfile) -> (r: ValidationContext)
        ensures
            r.profile == profile,
            r.limits == EffectiveLimits::none(),
    {
        ValidationContext { profile, limits: EffectiveLimits::unlimited() }
    }

    /// The context with these limits.
    pub fn with_caller_limits(self, limits: EffectiveLimits) -> (r: ValidationContext)
        ensures
            r == (ValidationContext { limits, ..self }),
    {
        ValidationContext { limits, ..self }
    }
}

} // verus!
