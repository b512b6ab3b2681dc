//! Templates and their validation.

use openjd::format_string::FormatString;
use openjd::model::error::{ModelError, ValidationError};
use openjd::model::template::{
    Environment, EnvironmentActions, EnvironmentTemplate, JobParameterDefinition, JobTemplate,
    StepTemplate,
};
use openjd::model::types::{
    EffectiveLimits, Extensions, ModelExtension, ModelProfile, SpecificationRevision,
    ValidationContext,
};
use openjd::model::validation::{validate_environment_template, validate_job_template};
use openjd::sessions::runner::Action;

fn action() -> Action {
    Action {
        command: FormatString::new("run").unwrap(),
        args: None,
        timeout: None,
        cancelation: None,
    }
}

fn environment(name: &str, hooks: usize) -> Environment {
    Environment {
        name: name.into(),
        description: None,
        actions: EnvironmentActions {
            on_enter: Some(action()),
            on_exit: None,
            on_wrap_env_enter: (hooks > 0).then_some(action()),
            on_wrap_task_run: (hooks > 1).then_some(action()),
            on_wrap_env_exit: (hooks > 2).then_some(action()),
        },
    }
}

fn step(name: &str, environments: Vec<Environment>) -> StepTemplate {
    StepTemplate { name: name.into(), step_environments: Some(environments) }
}

fn template(extensions: &[&str], job: Vec<Environment>, steps: Vec<StepTemplate>) -> JobTemplate {
    JobTemplate {
        specification_version: "jobtemplate-2023-09".into(),
        schema: None,
        extensions: Some(extensions.iter().map(|e| e.to_string()).collect()),
        name: FormatString::new("job").unwrap(),
        description: Some("words".into()),
        parameter_definitions: None,
        job_environments: Some(job),
        steps,
    }
}

fn parameter(name: &str) -> JobParameterDefinition {
    JobParameterDefinition { name: name.into(), param_type: "INT".into(), description: None }
}

fn errors(jt: &JobTemplate) -> Vec<(String, String)> {
    pairs(validate_job_template(jt, &jt.default_validation_context()))
}

fn pairs(r: Result<(), ModelError>) -> Vec<(String, String)> {
    match r {
        Ok(()) => vec![],
        Err(ModelError::ModelValidation(errors)) => {
            errors.into_iter().map(|ValidationError { path, message }| (path, message)).collect()
        }
    }
}

fn found(path: &str, message: &str) -> (String, String) {
    (path.to_string(), message.to_string())
}

const LAYERS: &str = "at most one environment of a session may define wrap hooks";

#[test]
fn templates_have_a_profile() {
    let jt = template(&["EXPR", "UNKNOWN", "WRAP_ACTIONS"], vec![], vec![step("a", vec![])]);
    let profile = jt.profile();
    assert_eq!(profile.revision(), SpecificationRevision::V2023_09);
    assert!(profile.has_extension(ModelExtension::Expr));
    assert!(profile.has_extension(ModelExtension::WrapActions));
    assert!(!profile.has_extension(ModelExtension::TaskChunking));
    assert_eq!(jt.default_validation_context().profile, profile);
    assert_eq!(jt.description(), Some("words"));
    assert_eq!(jt.parameter_definitions_list().len(), 0);
    assert_eq!(
        jt.name().resolve_string_with(&Default::default()).unwrap(),
        "job"
    );
    let mut odd = template(&[], vec![], vec![]);
    odd.specification_version = "something else".into();
    assert_eq!(odd.profile().revision(), SpecificationRevision::V2023_09);
}

#[test]
fn sound_templates_are_accepted() {
    let jt = template(
        &["EXPR", "WRAP_ACTIONS"],
        vec![environment("e", 3), environment("f", 0)],
        vec![step("a", vec![environment("g", 0)]), step("b", vec![])],
    );
    assert_eq!(errors(&jt), vec![]);
}

#[test]
fn names_are_unique() {
    let mut jt = template(
        &[],
        vec![environment("e", 0)],
        vec![step("a", vec![environment("e", 0)]), step("a", vec![])],
    );
    jt.parameter_definitions = Some(vec![parameter("p"), parameter("q"), parameter("p")]);
    assert_eq!(
        errors(&jt),
        vec![
            found("steps[1]", "duplicate name: a"),
            found("parameterDefinitions[2]", "duplicate name: p"),
            found("steps[0].stepEnvironments[0]", "duplicate name: e"),
        ]
    );
    jt.parameter_definitions = Some(vec![]);
    jt.steps = vec![];
    assert_eq!(
        errors(&jt),
        vec![
            found("steps", "at least one step is required"),
            found("parameterDefinitions", "must not be empty"),
        ]
    );
}

#[test]
fn names_are_neither_empty_nor_controlling() {
    const EMPTY: &str = "must not be empty";
    const CONTROL: &str = "must not contain control characters";
    let mut jt = template(&[], vec![], vec![step("", vec![]), step("a\u{7}", vec![])]);
    jt.name = FormatString::new("").unwrap();
    jt.description = Some("a\u{0}b".into());
    assert_eq!(
        errors(&jt),
        vec![
            found("name", EMPTY),
            found("description", CONTROL),
            found("steps[0]", EMPTY),
            found("steps[1]", CONTROL),
        ]
    );
    jt.name = FormatString::new("a{{Param.X}}\u{9f}").unwrap();
    // Line breaks and tabs are no control characters here.
    jt.description = Some("one\r\n\ttwo".into());
    jt.steps = vec![step("é", vec![])];
    assert_eq!(errors(&jt), vec![found("name", CONTROL)]);
    jt.name = FormatString::new("a{{Param.X}}").unwrap();
    assert_eq!(jt.name.raw(), "a{{Param.X}}");
    assert_eq!(errors(&jt), vec![]);
}

#[test]
fn parameter_types_are_checked() {
    let typed = |t: &str| JobParameterDefinition {
        name: t.into(),
        param_type: t.into(),
        description: None,
    };
    let refused = |i: usize, t: &str| {
        found(
            &format!("parameterDefinitions[{i}]"),
            &format!("parameter type is not allowed: {t}"),
        )
    };
    let types = ["STRING", "PATH", "INT", "FLOAT", "BOOL", "LIST[PATH]", "int", "OTHER"];
    let mut jt = template(&[], vec![], vec![step("a", vec![])]);
    jt.parameter_definitions = Some(types.iter().map(|t| typed(t)).collect());
    assert_eq!(
        errors(&jt),
        vec![refused(4, "BOOL"), refused(5, "LIST[PATH]"), refused(6, "int"), refused(7, "OTHER")]
    );
    jt.extensions = Some(vec!["EXPR".into()]);
    assert_eq!(errors(&jt), vec![refused(6, "int"), refused(7, "OTHER")]);
}

#[test]
fn limits_of_the_caller_are_kept() {
    let mut jt = template(
        &[],
        vec![environment("env", 0)],
        vec![step("four", vec![environment("e", 0)])],
    );
    jt.parameter_definitions = Some(vec![parameter("p"), parameter("long")]);
    let tight = EffectiveLimits {
        max_job_name_len: 2,
        max_description_len: 4,
        max_param_count: 1,
        max_env_template_param_count: 0,
        max_identifier_len: 3,
        max_step_name_len: 3,
        max_env_name_len: 2,
    };
    let ctx = jt.default_validation_context().with_caller_limits(tight);
    assert_eq!(
        pairs(validate_job_template(&jt, &ctx)),
        vec![
            found("name", "must not be longer than 2 characters"),
            found("description", "must not be longer than 4 characters"),
            found("steps[0]", "must not be longer than 3 characters"),
            found("parameterDefinitions", "must not have more than 1 entries"),
            found("parameterDefinitions[1]", "must not be longer than 3 characters"),
            found("jobEnvironments[0]", "must not be longer than 2 characters"),
        ]
    );
    let exact = EffectiveLimits {
        max_job_name_len: 3,
        max_description_len: 5,
        max_param_count: 2,
        max_identifier_len: 4,
        max_step_name_len: 4,
        max_env_name_len: 3,
        ..tight
    };
    let ctx = ctx.with_caller_limits(exact);
    assert_eq!(pairs(validate_job_template(&jt, &ctx)), vec![]);
    assert_eq!(jt.default_validation_context().limits, EffectiveLimits::unlimited());
    let et = EnvironmentTemplate {
        specification_version: "environment-2023-09".into(),
        extensions: None,
        parameter_definitions: Some(vec![parameter("p")]),
        environment: environment("name", 0),
    };
    assert_eq!(
        pairs(validate_environment_template(&et, &ctx)),
        vec![
            found("parameterDefinitions", "must not have more than 0 entries"),
            found("environment", "must not be longer than 3 characters"),
        ]
    );
}

#[test]
fn wrap_hooks_need_their_extension() {
    let jt = template(&["EXPR"], vec![environment("e", 3)], vec![step("a", vec![])]);
    assert_eq!(
        errors(&jt),
        vec![found("jobEnvironments[0]", "wrap hooks require the WRAP_ACTIONS extension")]
    );
    let jt = template(&["WRAP_ACTIONS"], vec![environment("e", 3)], vec![step("a", vec![])]);
    assert_eq!(errors(&jt), vec![found("extensions", "WRAP_ACTIONS requires EXPR")]);
}

#[test]
fn wrap_hooks_come_together() {
    let jt = template(
        &["EXPR", "WRAP_ACTIONS"],
        vec![],
        vec![step("a", vec![environment("x", 0), environment("e", 2)])],
    );
    assert_eq!(
        errors(&jt),
        vec![found(
            "steps[0].stepEnvironments[1]",
            "onWrapEnvEnter, onWrapTaskRun and onWrapEnvExit must be defined together"
        )]
    );
}

#[test]
fn a_session_wraps_once() {
    let both = ["EXPR", "WRAP_ACTIONS"];
    // Two layers in the job are reported once.
    let jt = template(
        &both,
        vec![environment("e", 3), environment("f", 3)],
        vec![step("a", vec![]), step("b", vec![])],
    );
    assert_eq!(errors(&jt), vec![found("jobEnvironments", LAYERS)]);
    // A step that adds its own layer is reported at that step.
    let jt = template(
        &both,
        vec![environment("e", 3)],
        vec![step("a", vec![]), step("b", vec![environment("g", 3)])],
    );
    assert_eq!(errors(&jt), vec![found("steps[1].stepEnvironments", LAYERS)]);
    // Different steps run in different sessions.
    let jt = template(
        &both,
        vec![],
        vec![step("a", vec![environment("g", 3)]), step("b", vec![environment("h", 3)])],
    );
    assert_eq!(errors(&jt), vec![]);
}

#[test]
fn environment_templates_are_validated() {
    let et = EnvironmentTemplate {
        specification_version: "environment-2023-09".into(),
        extensions: None,
        parameter_definitions: Some(vec![parameter("p"), parameter("p")]),
        environment: environment("e", 1),
    };
    let mut extensions = Extensions::new();
    let plain = ModelProfile::new(SpecificationRevision::V2023_09);
    assert_eq!(
        pairs(validate_environment_template(&et, &ValidationContext::from_profile(plain))),
        vec![
            found("parameterDefinitions[1]", "duplicate name: p"),
            found("environment", "wrap hooks require the WRAP_ACTIONS extension"),
        ]
    );
    extensions.insert(ModelExtension::WrapActions);
    extensions.insert(ModelExtension::Expr);
    let wrapping = plain.with_extensions(extensions);
    let ctx = ValidationContext::from_profile(wrapping);
    assert_eq!(
        pairs(validate_environment_template(&et, &ctx)),
        vec![
            found("parameterDefinitions[1]", "duplicate name: p"),
            found(
                "environment",
                "onWrapEnvEnter, onWrapTaskRun and onWrapEnvExit must be defined together"
            ),
        ]
    );
    let et = EnvironmentTemplate {
        parameter_definitions: None,
        environment: environment("e", 3),
        ..et
    };
    assert!(validate_environment_template(&et, &ctx).is_ok());
}
