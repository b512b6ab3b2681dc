//! The rules of the first revision on the names, the descriptions and the
//! parameters of a template and on its wrap hooks. Every rule is checked, so that
//! all errors are reported at once.
//!
//! What steps and environments run is no part of these templates, and so neither
//! are the rules on it: scripts and simple actions, embedded files, step
//! dependencies, host requirements, parameter spaces and task chunking, and the
//! references in format strings. Lengths and counts are held to the limits of the
//! caller alone.

use vstd::prelude::*;

use crate::model::error::{findings, report, validation_outcome, Finding, ModelError, ValidationError};
use crate::model::template::{
    listed, Environment, EnvironmentTemplate, JobParameterDefinition, JobTemplate, StepTemplate,
};
use crate::model::types::{EffectiveLimits, ModelExtension, ValidationContext};
use crate::text::{chars_of, decimal, push_decimal};

verus! {

/// How many of the three wrap hooks an environment defines.
pub open spec fn hook_count(e: Environment) -> nat {
    let a: nat = if e.actions.on_wrap_env_enter is Some { 1 } else { 0 };
    let b: nat = if e.actions.on_wrap_task_run is Some { 1 } else { 0 };
    let c: nat = if e.actions.on_wrap_env_exit is Some { 1 } else { 0 };
    a + b + c
}

fn count_hooks(e: &Environment) -> (r: u8)
    ensures
        r == hook_count(*e),
{
    let mut count: u8 = 0;
    if e.actions.on_wrap_env_enter.is_some() {
        count = count + 1;
    }
    if e.actions.on_wrap_task_run.is_some() {
        count = count + 1;
    }
    if e.actions.on_wrap_env_exit.is_some() {
        count = count + 1;
    }
    count
}

/// The path of an element of a list.
pub open spec fn element_path(list: Seq<char>, i: int) -> Seq<char> {
    list + "["@ + decimal(i as nat) + "]"@
}

fn path_of_element(list: &str, i: usize) -> (r: String)
    ensures
        r@ == element_path(list@, i as int),
{
    let mut path = list.to_owned();
    path.append("[");
    push_decimal(&mut path, i as u64);
    path.append("]");
    path
}

/// The path of the environments of a step.
pub open spec fn step_list(i: int) -> Seq<char> {
    element_path("steps"@, i) + ".stepEnvironments"@
}

fn path_of_step_environments(i: usize) -> (r: String)
    ensures
        r@ == step_list(i as int),
{
    let mut path = path_of_element("steps", i);
    path.append(".stepEnvironments");
    path
}

/// Something with a name, at a path.
struct Named {
    path: String,
    name: String,
}

/// The paths and names.
spec fn named_views(named: Seq<Named>) -> Seq<(Seq<char>, Seq<char>)> {
    named.map_values(|n: Named| (n.path@, n.name@))
}

/// Whether a name occurs.
pub open spec fn name_occurs(named: Seq<(Seq<char>, Seq<char>)>, name: Seq<char>) -> bool {
    exists|i: int| 0 <= i < named.len() && (#[trigger] named[i]).1 == name
}

/// A finding for each name that occurred before.
pub open spec fn repeats(named: Seq<(Seq<char>, Seq<char>)>) -> Seq<Finding>
    decreases named.len(),
{
    if named.len() == 0 {
        seq![]
    } else {
        let (path, name) = named.last();
        let before = repeats(named.drop_last());
        if name_occurs(named.drop_last(), name) {
            before.push(Finding { path, message: "duplicate name: "@ + name })
        } else {
            before
        }
    }
}

fn occurs_before(named: &Vec<Named>, count: usize, name: &String) -> (r: bool)
    requires
        count <= named@.len(),
    ensures
        r == name_occurs(named_views(named@).take(count as int), name@),
{
    let ghost views = named_views(named@).take(count as int);
    let mut i: usize = 0;
    while i < count
        invariant
            i <= count <= named@.len(),
            views == named_views(named@).take(count as int),
            forall|j: int| 0 <= j < i ==> (#[trigger] views[j]).1 != name@,
        decreases count - i,
    {
        assert(views[i as int].1 == named[i as int].name@);
        if named[i].name.eq(name) {
            return true;
        }
        i = i + 1;
    }
    false
}

fn report_repeats(errors: &mut Vec<ValidationError>, named: &Vec<Named>)
    ensures
        findings(final(errors)@) == findings(old(errors)@) + repeats(named_views(named@)),
{
    let ghost views = named_views(named@);
    let mut i: usize = 0;
    assert(findings(errors@) + repeats(views.take(0)) =~= findings(errors@));
    while i < named.len()
        invariant
            i <= named@.len(),
            views == named_views(named@),
            findings(errors@) == findings(old(errors)@) + repeats(views.take(i as int)),
        decreases named@.len() - i,
    {
        proof {
            assert(views.take(i + 1).drop_last() =~= views.take(i as int));
            assert(views.take(i + 1).last() == (named[i as int].path@, named[i as int].name@));
        }
        if occurs_before(named, i, &named[i].name) {
            let mut message = "duplicate name: ".to_owned();
            message.append(named[i].name.as_str());
            report(errors, named[i].path.clone(), message);
        }
        assert(findings(errors@) =~= findings(old(errors)@) + repeats(views.take(i + 1)));
        i = i + 1;
    }
    assert(views.take(i as int) =~= views);
}

/// Whether a character is a control character other than a line feed, a
/// carriage return or a tab.
pub open spec fn is_control(c: char) -> bool {
    (c <= '\u{1f}' || '\u{7f}' <= c <= '\u{9f}') && c != '\n' && c != '\r' && c != '\t'
}

/// Whether a text contains a control character.
pub open spec fn contains_control(text: Seq<char>) -> bool {
    exists|i: int| 0 <= i < text.len() && is_control(#[trigger] text[i])
}

fn has_control_chars(text: &str) -> (r: bool)
    ensures
        r == contains_control(text@),
{
    let chars = chars_of(text);
    let mut i: usize = 0;
    while i < chars.len()
        invariant
            i <= chars@.len(),
            chars@ == text@,
            forall|j: int| 0 <= j < i ==> !is_control(#[trigger] text@[j]),
        decreases chars@.len() - i,
    {
        let c = chars[i];
        if (c <= '\u{1f}' || ('\u{7f}' <= c && c <= '\u{9f}')) && c != '\n' && c != '\r' && c != '\t' {
            assert(is_control(text@[i as int]));
            return true;
        }
        i = i + 1;
    }
    false
}

/// What is wrong with a text that must not contain control characters.
pub open spec fn control_findings(path: Seq<char>, text: Seq<char>) -> Seq<Finding> {
    if contains_control(text) {
        seq![Finding { path, message: "must not contain control characters"@ }]
    } else {
        seq![]
    }
}

/// What is wrong with a name: it is empty, or it contains control characters.
pub open spec fn name_findings(path: Seq<char>, name: Seq<char>) -> Seq<Finding> {
    if name.len() == 0 {
        seq![Finding { path, message: "must not be empty"@ }]
    } else {
        control_findings(path, name)
    }
}

/// What is wrong with names, one by one.
pub open spec fn all_name_findings(named: Seq<(Seq<char>, Seq<char>)>) -> Seq<Finding>
    decreases named.len(),
{
    if named.len() == 0 {
        seq![]
    } else {
        all_name_findings(named.drop_last()) + name_findings(named.last().0, named.last().1)
    }
}

/// What is wrong with the length of a text.
pub open spec fn length_findings(path: Seq<char>, text: Seq<char>, limit: nat) -> Seq<Finding> {
    if text.len() > limit {
        seq![
            Finding {
                path,
                message: "must not be longer than "@ + decimal(limit) + " characters"@,
            },
        ]
    } else {
        seq![]
    }
}

/// What is wrong with the lengths of names, one by one.
pub open spec fn all_length_findings(named: Seq<(Seq<char>, Seq<char>)>, limit: nat) -> Seq<Finding>
    decreases named.len(),
{
    if named.len() == 0 {
        seq![]
    } else {
        all_length_findings(named.drop_last(), limit) + length_findings(
            named.last().0,
            named.last().1,
            limit,
        )
    }
}

/// What is wrong with the number of entries of a list.
pub open spec fn count_findings(path: Seq<char>, count: nat, limit: nat) -> Seq<Finding> {
    if count > limit {
        seq![Finding { path, message: "must not have more than "@ + decimal(limit) + " entries"@ }]
    } else {
        seq![]
    }
}

fn report_control(errors: &mut Vec<ValidationError>, path: &str, text: &str)
    ensures
        findings(final(errors)@) == findings(old(errors)@) + control_findings(path@, text@),
{
    if has_control_chars(text) {
        report(errors, path.to_owned(), "must not contain control characters".to_owned());
    }
    assert(findings(errors@) =~= findings(old(errors)@) + control_findings(path@, text@));
}

fn report_name(errors: &mut Vec<ValidationError>, path: &str, name: &str)
    ensures
        findings(final(errors)@) == findings(old(errors)@) + name_findings(path@, name@),
{
    if name.unicode_len() == 0 {
        report(errors, path.to_owned(), "must not be empty".to_owned());
        assert(findings(errors@) =~= findings(old(errors)@) + name_findings(path@, name@));
    } else {
        report_control(errors, path, name);
    }
}

fn report_length(errors: &mut Vec<ValidationError>, path: &str, text: &str, limit: usize)
    ensures
        findings(final(errors)@) == findings(old(errors)@) + length_findings(
            path@,
            text@,
            limit as nat,
        ),
{
    if text.unicode_len() > limit {
        let mut message = "must not be longer than ".to_owned();
        push_decimal(&mut message, limit as u64);
        message.append(" characters");
        report(errors, path.to_owned(), message);
    }
    assert(findings(errors@) =~= findings(old(errors)@) + length_findings(path@, text@, limit as nat));
}

fn report_count(errors: &mut Vec<ValidationError>, path: &str, count: usize, limit: usize)
    ensures
        findings(final(errors)@) == findings(old(errors)@) + count_findings(
            path@,
            count as nat,
            limit as nat,
        ),
{
    if count > limit {
        let mut message = "must not have more than ".to_owned();
        push_decimal(&mut message, limit as u64);
        message.append(" entries");
        report(errors, path.to_owned(), message);
    }
    assert(findings(errors@) =~= findings(old(errors)@) + count_findings(
        path@,
        count as nat,
        limit as nat,
    ));
}

fn report_all_names(errors: &mut Vec<ValidationError>, named: &Vec<Named>)
    ensures
        findings(final(errors)@) == findings(old(errors)@) + all_name_findings(named_views(named@)),
{
    let ghost views = named_views(named@);
    let mut i: usize = 0;
    assert(findings(errors@) + all_name_findings(views.take(0)) =~= findings(errors@));
    while i < named.len()
        invariant
            i <= named@.len(),
            views == named_views(named@),
            findings(errors@) == findings(old(errors)@) + all_name_findings(views.take(i as int)),
        decreases named@.len() - i,
    {
        proof {
            assert(views.take(i + 1).drop_last() =~= views.take(i as int));
            assert(views.take(i + 1).last() == (named[i as int].path@, named[i as int].name@));
        }
        report_name(errors, named[i].path.as_str(), named[i].name.as_str());
        assert(findings(errors@) =~= findings(old(errors)@) + all_name_findings(views.take(i + 1)));
        i = i + 1;
    }
    assert(views.take(i as int) =~= views);
}

fn report_all_lengths(errors: &mut Vec<ValidationError>, named: &Vec<Named>, limit: usize)
    ensures
        findings(final(errors)@) == findings(old(errors)@) + all_length_findings(
            named_views(named@),
            limit as nat,
        ),
{
    let ghost views = named_views(named@);
    let mut i: usize = 0;
    assert(findings(errors@) + all_length_findings(views.take(0), limit as nat) =~= findings(errors@));
    while i < named.len()
        invariant
            i <= named@.len(),
            views == named_views(named@),
            findings(errors@) == findings(old(errors)@) + all_length_findings(
                views.take(i as int),
                limit as nat,
            ),
        decreases named@.len() - i,
    {
        proof {
            assert(views.take(i + 1).drop_last() =~= views.take(i as int));
            assert(views.take(i + 1).last() == (named[i as int].path@, named[i as int].name@));
        }
        report_length(errors, named[i].path.as_str(), named[i].name.as_str(), limit);
        assert(findings(errors@) =~= findings(old(errors)@) + all_length_findings(
            views.take(i + 1),
            limit as nat,
        ));
        i = i + 1;
    }
    assert(views.take(i as int) =~= views);
}

/// Whether a job parameter may have a type. Some types belong to the expression
/// language.
pub open spec fn is_param_type(text: Seq<char>, expr: bool) -> bool {
    ||| text == "STRING"@
    ||| text == "PATH"@
    ||| text == "INT"@
    ||| text == "FLOAT"@
    ||| expr && is_expr_param_type(text)
}

/// Whether a type of job parameters belongs to the expression language.
pub open spec fn is_expr_param_type(text: Seq<char>) -> bool {
    ||| text == "BOOL"@
    ||| text == "RANGE_EXPR"@
    ||| text == "LIST[STRING]"@
    ||| text == "LIST[PATH]"@
    ||| text == "LIST[INT]"@
    ||| text == "LIST[FLOAT]"@
    ||| text == "LIST[BOOL]"@
    ||| text == "LIST[LIST[INT]]"@
}

fn param_type_allowed(text: &String, expr: bool) -> (r: bool)
    ensures
        r == is_param_type(text@, expr),
{
    if text.eq(&"STRING".to_owned()) || text.eq(&"PATH".to_owned()) || text.eq(&"INT".to_owned())
        || text.eq(&"FLOAT".to_owned()) {
        return true;
    }
    expr && (text.eq(&"BOOL".to_owned()) || text.eq(&"RANGE_EXPR".to_owned()) || text.eq(
        &"LIST[STRING]".to_owned(),
    ) || text.eq(&"LIST[PATH]".to_owned()) || text.eq(&"LIST[INT]".to_owned()) || text.eq(
        &"LIST[FLOAT]".to_owned(),
    ) || text.eq(&"LIST[BOOL]".to_owned()) || text.eq(&"LIST[LIST[INT]]".to_owned()))
}

/// What is wrong with the types of parameter definitions, one by one.
pub open spec fn type_findings(definitions: Seq<JobParameterDefinition>, expr: bool) -> Seq<Finding>
    decreases definitions.len(),
{
    if definitions.len() == 0 {
        seq![]
    } else {
        let before = type_findings(definitions.drop_last(), expr);
        let text = definitions.last().param_type@;
        if is_param_type(text, expr) {
            before
        } else {
            before.push(
                Finding {
                    path: element_path("parameterDefinitions"@, definitions.len() - 1),
                    message: "parameter type is not allowed: "@ + text,
                },
            )
        }
    }
}

fn report_types(
    errors: &mut Vec<ValidationError>,
    definitions: &Vec<JobParameterDefinition>,
    expr: bool,
)
    ensures
        findings(final(errors)@) == findings(old(errors)@) + type_findings(definitions@, expr),
{
    let mut i: usize = 0;
    assert(findings(errors@) + type_findings(definitions@.take(0), expr) =~= findings(errors@));
    while i < definitions.len()
        invariant
            i <= definitions@.len(),
            findings(errors@) == findings(old(errors)@) + type_findings(
                definitions@.take(i as int),
                expr,
            ),
        decreases definitions@.len() - i,
    {
        proof {
            assert(definitions@.take(i + 1).drop_last() =~= definitions@.take(i as int));
            assert(definitions@.take(i + 1).last() == definitions@[i as int]);
        }
        if !param_type_allowed(&definitions[i].param_type, expr) {
            let mut message = "parameter type is not allowed: ".to_owned();
            message.append(definitions[i].param_type.as_str());
            report(errors, path_of_element("parameterDefinitions", i), message);
        }
        assert(findings(errors@) =~= findings(old(errors)@) + type_findings(
            definitions@.take(i + 1),
            expr,
        ));
        i = i + 1;
    }
    assert(definitions@.take(i as int) =~= definitions@);
}

/// An environment of a template: where it stands, its name and how many wrap
/// hooks it defines.
pub struct PlaceView {
    pub path: Seq<char>,
    pub name: Seq<char>,
    pub hooks: nat,
}

struct Place {
    path: String,
    name: String,
    hooks: u8,
}

impl Place {
    spec fn model(self) -> PlaceView {
        PlaceView { path: self.path@, name: self.name@, hooks: self.hooks as nat }
    }
}

spec fn place_views(places: Seq<Place>) -> Seq<PlaceView> {
    places.map_values(|p: Place| p.model())
}

/// The environments of a list.
pub open spec fn places_in(list: Seq<char>, environments: Seq<Environment>) -> Seq<PlaceView> {
    Seq::new(
        environments.len(),
        |i: int|
            PlaceView {
                path: element_path(list, i),
                name: environments[i].name@,
                hooks: hook_count(environments[i]),
            },
    )
}

/// The environments of one step.
pub open spec fn places_of_step(steps: Seq<StepTemplate>, i: int) -> Seq<PlaceView> {
    places_in(step_list(i), listed(steps[i].step_environments))
}

/// The environments of all steps.
pub open spec fn places_of_steps(steps: Seq<StepTemplate>) -> Seq<PlaceView>
    decreases steps.len(),
{
    if steps.len() == 0 {
        seq![]
    } else {
        places_of_steps(steps.drop_last()) + places_of_step(steps, steps.len() - 1)
    }
}

/// The environments of the job.
pub open spec fn places_of_job(jt: JobTemplate) -> Seq<PlaceView> {
    places_in("jobEnvironments"@, listed(jt.job_environments))
}

fn add_places(places: &mut Vec<Place>, list: &str, environments: &Option<Vec<Environment>>)
    ensures
        place_views(final(places)@) == place_views(old(places)@) + places_in(
            list@,
            listed(*environments),
        ),
{
    let ghost all = places_in(list@, listed(*environments));
    if let Some(environments) = environments {
        let mut i: usize = 0;
        assert(place_views(places@) + all.take(0) =~= place_views(places@));
        while i < environments.len()
            invariant
                i <= environments@.len(),
                all == places_in(list@, environments@),
                place_views(places@) == place_views(old(places)@) + all.take(i as int),
            decreases environments@.len() - i,
        {
            let ghost before = place_views(places@);
            places.push(
                Place {
                    path: path_of_element(list, i),
                    name: environments[i].name.clone(),
                    hooks: count_hooks(&environments[i]),
                },
            );
            proof {
                assert(place_views(places@) =~= before.push(all[i as int]));
                assert(all.take(i + 1) =~= all.take(i as int).push(all[i as int]));
                assert(place_views(places@) =~= place_views(old(places)@) + all.take(i + 1));
            }
            i = i + 1;
        }
        assert(all.take(i as int) =~= all);
    } else {
        assert(place_views(places@) + all =~= place_views(places@));
    }
}

fn add_step_places(places: &mut Vec<Place>, steps: &Vec<StepTemplate>)
    ensures
        place_views(final(places)@) == place_views(old(places)@) + places_of_steps(steps@),
{
    let mut i: usize = 0;
    assert(place_views(places@) + places_of_steps(steps@.take(0)) =~= place_views(places@));
    while i < steps.len()
        invariant
            i <= steps@.len(),
            place_views(places@) == place_views(old(places)@) + places_of_steps(steps@.take(i as int)),
        decreases steps@.len() - i,
    {
        let list = path_of_step_environments(i);
        add_places(places, list.as_str(), &steps[i].step_environments);
        proof {
            assert(steps@.take(i + 1).drop_last() =~= steps@.take(i as int));
            assert(places_of_step(steps@.take(i + 1), i as int) == places_of_step(steps@, i as int));
            assert(place_views(places@) =~= place_views(old(places)@) + places_of_steps(
                steps@.take(i + 1),
            ));
        }
        i = i + 1;
    }
    assert(steps@.take(i as int) =~= steps@);
}

/// The paths and names of environments.
pub open spec fn names_of_places(places: Seq<PlaceView>) -> Seq<(Seq<char>, Seq<char>)> {
    places.map_values(|p: PlaceView| (p.path, p.name))
}

fn place_names(places: &Vec<Place>) -> (r: Vec<Named>)
    ensures
        named_views(r@) == names_of_places(place_views(places@)),
{
    let ghost all = names_of_places(place_views(places@));
    let mut r: Vec<Named> = Vec::new();
    let mut i: usize = 0;
    while i < places.len()
        invariant
            i <= places@.len(),
            all == names_of_places(place_views(places@)),
            named_views(r@) == all.take(i as int),
        decreases places@.len() - i,
    {
        let ghost before = named_views(r@);
        r.push(Named { path: places[i].path.clone(), name: places[i].name.clone() });
        assert(named_views(r@) =~= before.push(all[i as int]));
        assert(all.take(i + 1) =~= all.take(i as int).push(all[i as int]));
        i = i + 1;
    }
    assert(all.take(i as int) =~= all);
    r
}

/// What is wrong with the wrap hooks of one environment: hooks need the
/// extension, and one hook needs the others.
pub open spec fn hook_findings(place: PlaceView, enabled: bool) -> Seq<Finding> {
    if place.hooks == 0 {
        seq![]
    } else if !enabled {
        seq![
            Finding {
                path: place.path,
                message: "wrap hooks require the WRAP_ACTIONS extension"@,
            },
        ]
    } else if place.hooks < 3 {
        seq![
            Finding {
                path: place.path,
                message: "onWrapEnvEnter, onWrapTaskRun and onWrapEnvExit must be defined together"@,
            },
        ]
    } else {
        seq![]
    }
}

/// What is wrong with the wrap hooks of environments, one by one.
pub open spec fn gate_findings(places: Seq<PlaceView>, enabled: bool) -> Seq<Finding>
    decreases places.len(),
{
    if places.len() == 0 {
        seq![]
    } else {
        gate_findings(places.drop_last(), enabled) + hook_findings(places.last(), enabled)
    }
}

fn report_gates(errors: &mut Vec<ValidationError>, places: &Vec<Place>, enabled: bool)
    ensures
        findings(final(errors)@) == findings(old(errors)@) + gate_findings(
            place_views(places@),
            enabled,
        ),
{
    let ghost views = place_views(places@);
    let mut i: usize = 0;
    assert(findings(errors@) + gate_findings(views.take(0), enabled) =~= findings(errors@));
    while i < places.len()
        invariant
            i <= places@.len(),
            views == place_views(places@),
            findings(errors@) == findings(old(errors)@) + gate_findings(views.take(i as int), enabled),
        decreases places@.len() - i,
    {
        proof {
            assert(views.take(i + 1).drop_last() =~= views.take(i as int));
            assert(views.take(i + 1).last() == places[i as int].model());
        }
        if places[i].hooks > 0 {
            if !enabled {
                report(
                    errors,
                    places[i].path.clone(),
                    "wrap hooks require the WRAP_ACTIONS extension".to_owned(),
                );
            } else if places[i].hooks < 3 {
                report(
                    errors,
                    places[i].path.clone(),
                    "onWrapEnvEnter, onWrapTaskRun and onWrapEnvExit must be defined together".to_owned(),
                );
            }
        }
        assert(findings(errors@) =~= findings(old(errors)@) + gate_findings(
            views.take(i + 1),
            enabled,
        ));
        i = i + 1;
    }
    assert(views.take(i as int) =~= views);
}

/// How many environments define a wrap hook.
pub open spec fn wrapping(environments: Seq<Environment>) -> nat
    decreases environments.len(),
{
    if environments.len() == 0 {
        0
    } else {
        wrapping(environments.drop_last()) + if hook_count(environments.last()) > 0 {
            1nat
        } else {
            0nat
        }
    }
}

fn count_wrapping(environments: &Option<Vec<Environment>>) -> (r: usize)
    ensures
        r == wrapping(listed(*environments)),
        r <= listed(*environments).len(),
{
    let mut count: usize = 0;
    if let Some(environments) = environments {
        let mut i: usize = 0;
        assert(environments@.take(0) =~= seq![]);
        while i < environments.len()
            invariant
                count <= i <= environments@.len(),
                count == wrapping(environments@.take(i as int)),
            decreases environments@.len() - i,
        {
            assert(environments@.take(i + 1).drop_last() =~= environments@.take(i as int));
            if count_hooks(&environments[i]) > 0 {
                count = count + 1;
            }
            i = i + 1;
        }
        assert(environments@.take(i as int) =~= environments@);
    }
    count
}

/// The message on more than one layer of wrap hooks.
pub open spec fn layer_message() -> Seq<char> {
    "at most one environment of a session may define wrap hooks"@
}

/// What is wrong with the layers of wrap hooks in the sessions of the steps: a
/// step adds its own layer to another one.
pub open spec fn step_layer_findings(in_job: nat, steps: Seq<StepTemplate>) -> Seq<Finding>
    decreases steps.len(),
{
    if steps.len() == 0 {
        seq![]
    } else {
        let before = step_layer_findings(in_job, steps.drop_last());
        let own = wrapping(listed(steps.last().step_environments));
        if own > 0 && in_job + own > 1 {
            before.push(Finding { path: step_list(steps.len() - 1), message: layer_message() })
        } else {
            before
        }
    }
}

/// What is wrong with the layers of wrap hooks. Those of the job alone are
/// reported once.
pub open spec fn layer_findings(jt: JobTemplate) -> Seq<Finding> {
    let in_job = wrapping(listed(jt.job_environments));
    let of_job = if in_job > 1 {
        seq![Finding { path: "jobEnvironments"@, message: layer_message() }]
    } else {
        seq![]
    };
    of_job + step_layer_findings(in_job, jt.steps@)
}

fn report_layers(errors: &mut Vec<ValidationError>, jt: &JobTemplate)
    ensures
        findings(final(errors)@) == findings(old(errors)@) + layer_findings(*jt),
{
    let in_job = count_wrapping(&jt.job_environments);
    if in_job > 1 {
        report(
            errors,
            "jobEnvironments".to_owned(),
            "at most one environment of a session may define wrap hooks".to_owned(),
        );
    }
    let ghost start = findings(errors@);
    let mut i: usize = 0;
    assert(start + step_layer_findings(in_job as nat, jt.steps@.take(0)) =~= start);
    while i < jt.steps.len()
        invariant
            i <= jt.steps@.len(),
            findings(errors@) == start + step_layer_findings(in_job as nat, jt.steps@.take(i as int)),
        decreases jt.steps@.len() - i,
    {
        proof {
            assert(jt.steps@.take(i + 1).drop_last() =~= jt.steps@.take(i as int));
            assert(jt.steps@.take(i + 1).last() == jt.steps@[i as int]);
        }
        let own = count_wrapping(&jt.steps[i].step_environments);
        if own > 1 || (own > 0 && in_job > 0) {
            report(
                errors,
                path_of_step_environments(i),
                "at most one environment of a session may define wrap hooks".to_owned(),
            );
        }
        assert(findings(errors@) =~= start + step_layer_findings(
            in_job as nat,
            jt.steps@.take(i + 1),
        ));
        i = i + 1;
    }
    assert(jt.steps@.take(i as int) =~= jt.steps@);
    assert(findings(errors@) =~= findings(old(errors)@) + layer_findings(*jt));
}

/// What is wrong with the extensions themselves.
pub open spec fn extension_findings(extensions: Set<ModelExtension>) -> Seq<Finding> {
    if extensions.contains(ModelExtension::WrapActions) && !extensions.contains(ModelExtension::Expr) {
        seq![Finding { path: "extensions"@, message: "WRAP_ACTIONS requires EXPR"@ }]
    } else {
        seq![]
    }
}

fn report_extensions(errors: &mut Vec<ValidationError>, ctx: &ValidationContext)
    ensures
        findings(final(errors)@) == findings(old(errors)@) + extension_findings(
            ctx.profile.spec_extensions(),
        ),
{
    if ctx.profile.has_extension(ModelExtension::WrapActions) && !ctx.profile.has_extension(
        ModelExtension::Expr,
    ) {
        report(errors, "extensions".to_owned(), "WRAP_ACTIONS requires EXPR".to_owned());
    }
    assert(findings(errors@) =~= findings(old(errors)@) + extension_findings(
        ctx.profile.spec_extensions(),
    ));
}

/// The paths and names of parameter definitions.
pub open spec fn parameter_names(definitions: Seq<JobParameterDefinition>) -> Seq<
    (Seq<char>, Seq<char>),
> {
    Seq::new(
        definitions.len(),
        |i: int| (element_path("parameterDefinitions"@, i), definitions[i].name@),
    )
}

fn named_parameters(list: &Vec<JobParameterDefinition>) -> (r: Vec<Named>)
    ensures
        named_views(r@) == parameter_names(list@),
{
    let ghost all = parameter_names(list@);
    let mut named: Vec<Named> = Vec::new();
    let mut i: usize = 0;
    while i < list.len()
        invariant
            i <= list@.len(),
            all == parameter_names(list@),
            named_views(named@) == all.take(i as int),
        decreases list@.len() - i,
    {
        let ghost before = named_views(named@);
        named.push(
            Named { path: path_of_element("parameterDefinitions", i), name: list[i].name.clone() },
        );
        assert(named_views(named@) =~= before.push(all[i as int]));
        assert(all.take(i + 1) =~= all.take(i as int).push(all[i as int]));
        i = i + 1;
    }
    assert(all.take(i as int) =~= all);
    named
}

/// What is wrong with the parameter definitions: more than the limit, a name
/// beyond the limit, an empty list, a name twice, or a type that is not allowed.
pub open spec fn parameter_findings(
    definitions: Option<Vec<JobParameterDefinition>>,
    max_count: nat,
    max_len: nat,
    expr: bool,
) -> Seq<Finding> {
    match definitions {
        Some(list) => if list@.len() == 0 {
            seq![Finding { path: "parameterDefinitions"@, message: "must not be empty"@ }]
        } else {
            count_findings("parameterDefinitions"@, list@.len(), max_count) + all_length_findings(
                parameter_names(list@),
                max_len,
            ) + repeats(parameter_names(list@)) + type_findings(list@, expr)
        },
        None => seq![],
    }
}

fn report_parameters(
    errors: &mut Vec<ValidationError>,
    definitions: &Option<Vec<JobParameterDefinition>>,
    max_count: usize,
    max_len: usize,
    expr: bool,
)
    ensures
        findings(final(errors)@) == findings(old(errors)@) + parameter_findings(
            *definitions,
            max_count as nat,
            max_len as nat,
            expr,
        ),
{
    if let Some(list) = definitions {
        if list.len() == 0 {
            report(errors, "parameterDefinitions".to_owned(), "must not be empty".to_owned());
        } else {
            let named = named_parameters(list);
            report_count(errors, "parameterDefinitions", list.len(), max_count);
            report_all_lengths(errors, &named, max_len);
            report_repeats(errors, &named);
            report_types(errors, list, expr);
        }
    }
    assert(findings(errors@) =~= findings(old(errors)@) + parameter_findings(
        *definitions,
        max_count as nat,
        max_len as nat,
        expr,
    ));
}

/// The paths and names of steps.
pub open spec fn step_names(steps: Seq<StepTemplate>) -> Seq<(Seq<char>, Seq<char>)> {
    Seq::new(steps.len(), |i: int| (element_path("steps"@, i), steps[i].name@))
}

fn named_steps(steps: &Vec<StepTemplate>) -> (r: Vec<Named>)
    ensures
        named_views(r@) == step_names(steps@),
{
    let ghost all = step_names(steps@);
    let mut named: Vec<Named> = Vec::new();
    let mut i: usize = 0;
    while i < steps.len()
        invariant
            i <= steps@.len(),
            all == step_names(steps@),
            named_views(named@) == all.take(i as int),
        decreases steps@.len() - i,
    {
        let ghost before = named_views(named@);
        named.push(Named { path: path_of_element("steps", i), name: steps[i].name.clone() });
        assert(named_views(named@) =~= before.push(all[i as int]));
        assert(all.take(i + 1) =~= all.take(i as int).push(all[i as int]));
        i = i + 1;
    }
    assert(all.take(i as int) =~= all);
    named
}

/// What is wrong with the steps: none at all, a name beyond the limit, empty or
/// with control characters, or a name twice.
pub open spec fn step_findings(steps: Seq<StepTemplate>, max_len: nat) -> Seq<Finding> {
    if steps.len() == 0 {
        seq![Finding { path: "steps"@, message: "at least one step is required"@ }]
    } else {
        all_length_findings(step_names(steps), max_len) + all_name_findings(step_names(steps))
            + repeats(step_names(steps))
    }
}

fn report_steps(errors: &mut Vec<ValidationError>, steps: &Vec<StepTemplate>, max_len: usize)
    ensures
        findings(final(errors)@) == findings(old(errors)@) + step_findings(steps@, max_len as nat),
{
    if steps.len() == 0 {
        report(errors, "steps".to_owned(), "at least one step is required".to_owned());
    } else {
        let named = named_steps(steps);
        report_all_lengths(errors, &named, max_len);
        report_all_names(errors, &named);
        report_repeats(errors, &named);
    }
    assert(findings(errors@) =~= findings(old(errors)@) + step_findings(steps@, max_len as nat));
}

/// What is wrong with the name and the description of a job.
pub open spec fn job_text_findings(jt: JobTemplate, limits: EffectiveLimits) -> Seq<Finding> {
    let name = jt.name.text();
    let of_name = length_findings("name"@, name, limits.max_job_name_len as nat) + name_findings(
        "name"@,
        name,
    );
    match jt.description {
        Some(text) => of_name + length_findings(
            "description"@,
            text@,
            limits.max_description_len as nat,
        ) + control_findings("description"@, text@),
        None => of_name,
    }
}

fn report_job_texts(errors: &mut Vec<ValidationError>, jt: &JobTemplate, limits: &EffectiveLimits)
    ensures
        findings(final(errors)@) == findings(old(errors)@) + job_text_findings(*jt, *limits),
{
    report_length(errors, "name", jt.name.raw(), limits.max_job_name_len);
    report_name(errors, "name", jt.name.raw());
    if let Some(text) = &jt.description {
        report_length(errors, "description", text.as_str(), limits.max_description_len);
        report_control(errors, "description", text.as_str());
    }
    assert(findings(errors@) =~= findings(old(errors)@) + job_text_findings(*jt, *limits));
}

/// All environments of a job template.
pub open spec fn all_places(jt: JobTemplate) -> Seq<PlaceView> {
    places_of_job(jt) + places_of_steps(jt.steps@)
}

/// What is wrong with the environments of a job template: a name beyond the
/// limit, or a name twice.
pub open spec fn environment_name_findings(jt: JobTemplate, max_len: nat) -> Seq<Finding> {
    let names = names_of_places(all_places(jt));
    all_length_findings(names, max_len) + repeats(names)
}

/// What is wrong with the wrap hooks of a job template.
pub open spec fn wrap_findings(jt: JobTemplate, extensions: Set<ModelExtension>) -> Seq<Finding> {
    let enabled = extensions.contains(ModelExtension::WrapActions);
    let gates = extension_findings(extensions) + gate_findings(all_places(jt), enabled);
    if enabled {
        gates + layer_findings(jt)
    } else {
        gates
    }
}

/// What is wrong with a job template.
pub open spec fn job_findings(
    jt: JobTemplate,
    extensions: Set<ModelExtension>,
    limits: EffectiveLimits,
) -> Seq<Finding> {
    job_text_findings(jt, limits) + step_findings(jt.steps@, limits.max_step_name_len as nat)
        + parameter_findings(
        jt.parameter_definitions,
        limits.max_param_count as nat,
        limits.max_identifier_len as nat,
        extensions.contains(ModelExtension::Expr),
    ) + environment_name_findings(jt, limits.max_env_name_len as nat) + wrap_findings(jt, extensions)
}

/// What is wrong with an environment template.
pub open spec fn environment_findings(
    et: EnvironmentTemplate,
    extensions: Set<ModelExtension>,
    limits: EffectiveLimits,
) -> Seq<Finding> {
    parameter_findings(
        et.parameter_definitions,
        limits.max_env_template_param_count as nat,
        limits.max_identifier_len as nat,
        extensions.contains(ModelExtension::Expr),
    ) + length_findings(
        "environment"@,
        et.environment.name@,
        limits.max_env_name_len as nat,
    ) + extension_findings(extensions) + hook_findings(
        PlaceView {
            path: "environment"@,
            name: et.environment.name@,
            hooks: hook_count(et.environment),
        },
        extensions.contains(ModelExtension::WrapActions),
    )
}

fn conclude(errors: Vec<ValidationError>) -> (r: Result<(), ModelError>)
    ensures
        validation_outcome(r) == findings(errors@),
        r is Ok <==> findings(errors@).len() == 0,
{
    if errors.len() == 0 {
        assert(findings(errors@) =~= seq![]);
        Ok(())
    } else {
        Err(ModelError::ModelValidation(errors))
    }
}

/// Validates a job template by the rules of this module.
pub fn validate_job_template(jt: &JobTemplate, ctx: &ValidationContext) -> (r: Result<
    (),
    ModelError,
>)
    ensures
        validation_outcome(r) == job_findings(*jt, ctx.profile.spec_extensions(), ctx.limits),
        r is Ok <==> job_findings(*jt, ctx.profile.spec_extensions(), ctx.limits).len() == 0,
{
    let limits = &ctx.limits;
    let mut errors: Vec<ValidationError> = Vec::new();
    assert(findings(errors@) =~= seq![]);
    report_job_texts(&mut errors, jt, limits);
    report_steps(&mut errors, &jt.steps, limits.max_step_name_len);
    let expr = ctx.profile.has_extension(ModelExtension::Expr);
    report_parameters(
        &mut errors,
        &jt.parameter_definitions,
        limits.max_param_count,
        limits.max_identifier_len,
        expr,
    );
    let mut places: Vec<Place> = Vec::new();
    assert(place_views(places@) =~= seq![]);
    add_places(&mut places, "jobEnvironments", &jt.job_environments);
    add_step_places(&mut places, &jt.steps);
    assert(place_views(places@) =~= all_places(*jt));
    let named = place_names(&places);
    report_all_lengths(&mut errors, &named, limits.max_env_name_len);
    report_repeats(&mut errors, &named);
    report_extensions(&mut errors, ctx);
    let enabled = ctx.profile.has_extension(ModelExtension::WrapActions);
    report_gates(&mut errors, &places, enabled);
    if enabled {
        report_layers(&mut errors, jt);
    }
    assert(findings(errors@) =~= job_findings(*jt, ctx.profile.spec_extensions(), ctx.limits));
    conclude(errors)
}

/// Validates an environment template by the rules of this module.
pub fn validate_environment_template(et: &EnvironmentTemplate, ctx: &ValidationContext) -> (r: Result<
    (),
    ModelError,
>)
    ensures
        validation_outcome(r) == environment_findings(
            *et,
            ctx.profile.spec_extensions(),
            ctx.limits,
        ),
        r is Ok <==> environment_findings(*et, ctx.profile.spec_extensions(), ctx.limits).len() == 0,
{
    let limits = &ctx.limits;
    let mut errors: Vec<ValidationError> = Vec::new();
    assert(findings(errors@) =~= seq![]);
    let expr = ctx.profile.has_extension(ModelExtension::Expr);
    report_parameters(
        &mut errors,
        &et.parameter_definitions,
        limits.max_env_template_param_count,
        limits.max_identifier_len,
        expr,
    );
    report_length(
        &mut errors,
        "environment",
        et.environment.name.as_str(),
        limits.max_env_name_len,
    );
    report_extensions(&mut errors, ctx);
    let mut places: Vec<Place> = Vec::new();
    places.push(
        Place {
            path: "environment".to_owned(),
            name: et.environment.name.clone(),
            hooks: count_hooks(&et.environment),
        },
    );
    report_gates(&mut errors, &places, ctx.profile.has_extension(ModelExtension::WrapActions));
    proof {
        let views = place_views(places@);
        let enabled = ctx.profile.spec_extensions().contains(ModelExtension::WrapActions);
        assert(views.drop_last() =~= seq![]);
        assert(views.last() == places@[0].model());
        assert(gate_findings(views.drop_last(), enabled) == Seq::<Finding>::empty());
        assert(gate_findings(views, enabled) =~= hook_findings(views.last(), enabled));
        assert(findings(errors@) =~= environment_findings(
            *et,
            ctx.profile.spec_extensions(),
            ctx.limits,
        ));
    }
    conclude(errors)
}

proof fn lemma_no_repeats(named: Seq<(Seq<char>, Seq<char>)>, i: int, j: int)
    requires
        repeats(named).len() == 0,
        0 <= i < j < named.len(),
    ensures
        named[i].1 != named[j].1,
    decreases named.len(),
{
    let shorter = named.drop_last();
    if j < named.len() - 1 {
        lemma_no_repeats(shorter, i, j);
        assert(shorter[i] == named[i] && shorter[j] == named[j]);
    } else {
        assert(shorter[i] == named[i]);
        assert(!name_occurs(shorter, named.last().1));
    }
}

proof fn lemma_no_step_layers(in_job: nat, steps: Seq<StepTemplate>, i: int)
    requires
        step_layer_findings(in_job, steps).len() == 0,
        in_job <= 1,
        0 <= i < steps.len(),
    ensures
        in_job + wrapping(listed(steps[i].step_environments)) <= 1,
    decreases steps.len(),
{
    if i < steps.len() - 1 {
        lemma_no_step_layers(in_job, steps.drop_last(), i);
        assert(steps.drop_last()[i] == steps[i]);
    }
}

proof fn lemma_no_gates(places: Seq<PlaceView>, enabled: bool, i: int)
    requires
        gate_findings(places, enabled).len() == 0,
        0 <= i < places.len(),
    ensures
        places[i].hooks == 0 || (enabled && places[i].hooks >= 3),
    decreases places.len(),
{
    if i < places.len() - 1 {
        lemma_no_gates(places.drop_last(), enabled, i);
        assert(places.drop_last()[i] == places[i]);
    } else {
        assert(hook_findings(places.last(), enabled).len() == 0);
    }
}

/// In every session of an accepted template at most one environment wraps: the
/// environments of the job and those of any one step hold at most one layer.
pub proof fn accepted_sessions_wrap_once(
    jt: JobTemplate,
    extensions: Set<ModelExtension>,
    limits: EffectiveLimits,
    step: int,
)
    requires
        job_findings(jt, extensions, limits).len() == 0,
        extensions.contains(ModelExtension::WrapActions),
        0 <= step < jt.steps@.len(),
    ensures
        wrapping(listed(jt.job_environments)) + wrapping(
            listed(jt.steps@[step].step_environments),
        ) <= 1,
{
    assert(wrap_findings(jt, extensions).len() == 0);
    assert(layer_findings(jt).len() == 0);
    let in_job = wrapping(listed(jt.job_environments));
    assert(in_job <= 1);
    lemma_no_step_layers(in_job, jt.steps@, step);
}

/// An environment of an accepted template defines none of the wrap hooks or,
/// where the extension is enabled, all three.
pub proof fn accepted_hooks_come_together(
    jt: JobTemplate,
    extensions: Set<ModelExtension>,
    limits: EffectiveLimits,
    place: int,
)
    requires
        job_findings(jt, extensions, limits).len() == 0,
        0 <= place < all_places(jt).len(),
    ensures
        all_places(jt)[place].hooks == 0 || (extensions.contains(ModelExtension::WrapActions)
            && extensions.contains(ModelExtension::Expr) && all_places(jt)[place].hooks >= 3),
{
    let enabled = extensions.contains(ModelExtension::WrapActions);
    assert(wrap_findings(jt, extensions).len() == 0);
    assert(gate_findings(all_places(jt), enabled).len() == 0);
    assert(extension_findings(extensions).len() == 0);
    lemma_no_gates(all_places(jt), enabled, place);
}

/// The steps of an accepted template have different names, and so do all its
/// environments.
pub proof fn accepted_names_are_distinct(
    jt: JobTemplate,
    extensions: Set<ModelExtension>,
    limits: EffectiveLimits,
    i: int,
    j: int,
)
    requires
        job_findings(jt, extensions, limits).len() == 0,
        0 <= i < j,
    ensures
        jt.steps@.len() >= 1,
        j < jt.steps@.len() ==> jt.steps@[i].name@ != jt.steps@[j].name@,
        j < all_places(jt).len() ==> all_places(jt)[i].name != all_places(jt)[j].name,
{
    assert(step_findings(jt.steps@, limits.max_step_name_len as nat).len() == 0);
    assert(environment_name_findings(jt, limits.max_env_name_len as nat).len() == 0);
    if j < jt.steps@.len() {
        assert(repeats(step_names(jt.steps@)).len() == 0);
        lemma_no_repeats(step_names(jt.steps@), i, j);
    }
    let names = names_of_places(all_places(jt));
    assert(repeats(names).len() == 0);
    if j < all_places(jt).len() {
        lemma_no_repeats(names, i, j);
    }
}

proof fn lemma_sound_name(named: Seq<(Seq<char>, Seq<char>)>, limit: nat, i: int)
    requires
        0 <= i < named.len(),
    ensures
        all_name_findings(named).len() == 0 ==> named[i].1.len() > 0 && !contains_control(named[i].1),
        all_length_findings(named, limit).len() == 0 ==> named[i].1.len() <= limit,
    decreases named.len(),
{
    if i < named.len() - 1 {
        lemma_sound_name(named.drop_last(), limit, i);
        assert(named.drop_last()[i] == named[i]);
    }
}

proof fn lemma_sound_type(definitions: Seq<JobParameterDefinition>, expr: bool, i: int)
    requires
        0 <= i < definitions.len(),
        type_findings(definitions, expr).len() == 0,
    ensures
        is_param_type(definitions[i].param_type@, expr),
    decreases definitions.len(),
{
    if i < definitions.len() - 1 {
        lemma_sound_type(definitions.drop_last(), expr, i);
        assert(definitions.drop_last()[i] == definitions[i]);
    }
}

/// The names of the job and of the steps of an accepted template are neither
/// empty nor beyond the limits, and hold no control characters. Its parameters
/// have types that are allowed.
pub proof fn accepted_texts_are_sound(
    jt: JobTemplate,
    extensions: Set<ModelExtension>,
    limits: EffectiveLimits,
    i: int,
)
    requires
        job_findings(jt, extensions, limits).len() == 0,
        0 <= i,
    ensures
        0 < jt.name.text().len() <= limits.max_job_name_len,
        !contains_control(jt.name.text()),
        i < jt.steps@.len() ==> 0 < jt.steps@[i].name@.len() <= limits.max_step_name_len
            && !contains_control(jt.steps@[i].name@),
        jt.parameter_definitions matches Some(list) ==> list@.len() <= limits.max_param_count && (i
            < list@.len() ==> list@[i].name@.len() <= limits.max_identifier_len && is_param_type(
            list@[i].param_type@,
            extensions.contains(ModelExtension::Expr),
        )),
{
    let expr = extensions.contains(ModelExtension::Expr);
    assert(job_text_findings(jt, limits).len() == 0);
    assert(step_findings(jt.steps@, limits.max_step_name_len as nat).len() == 0);
    assert(parameter_findings(
        jt.parameter_definitions,
        limits.max_param_count as nat,
        limits.max_identifier_len as nat,
        expr,
    ).len() == 0);
    if i < jt.steps@.len() {
        lemma_sound_name(step_names(jt.steps@), limits.max_step_name_len as nat, i);
    }
    if let Some(list) = jt.parameter_definitions {
        if i < list@.len() {
            lemma_sound_name(parameter_names(list@), limits.max_identifier_len as nat, i);
            lemma_sound_type(list@, expr, i);
        }
    }
}

} // verus!
