//! Which templates are accepted, and what is said of the others.

use vstd::prelude::*;

use crate::model::error::Finding;
use crate::model::template::{
    listed, Environment, EnvironmentTemplate, JobParameterDefinition, JobTemplate, StepTemplate,
};
use crate::model::types::{EffectiveLimits, ModelExtension};
use crate::model::validate_v2023_09::{
    all_length_findings, all_name_findings, all_places, contains_control, environment_findings,
    environment_name_findings, gate_findings, hook_count, is_control, is_param_type, job_findings,
    job_text_findings, layer_findings, name_findings, name_occurs, names_of_places, parameter_findings,
    parameter_names, places_of_step, places_of_steps, repeats, step_findings, step_layer_findings,
    step_names, type_findings, wrap_findings, wrapping, PlaceView,
};
use crate::text::decimal;

verus! {

/// Whether a text holds only printable characters, line feeds, carriage returns
/// and tabs: none of U+0000 to U+001F but those three, none of U+007F to U+009F.
pub open spec fn is_clean(text: Seq<char>) -> bool {
    forall|i: int|
        0 <= i < text.len() ==> {
            let code = (#[trigger] text[i]) as int;
            code == 0x9 || code == 0xa || code == 0xd || 0x20 <= code <= 0x7e || code >= 0xa0
        }
}

/// A text is found to contain a control character if and only if one of its
/// characters lies in U+0000 to U+001F or U+007F to U+009F and is no line feed,
/// carriage return or tab. A text of printable ASCII characters contains none.
pub proof fn control_characters_are_those_of_unicode(text: Seq<char>)
    ensures
        contains_control(text) <==> exists|i: int|
            0 <= i < text.len() && {
                let code = (#[trigger] text[i]) as int;
                (code <= 0x1f || 0x7f <= code <= 0x9f) && code != 0xa && code != 0xd && code != 0x9
            },
        contains_control(text) <==> !is_clean(text),
        (forall|i: int| 0 <= i < text.len() ==> ' ' <= #[trigger] text[i] <= '~') ==> !contains_control(
            text,
        ),
{
    if contains_control(text) {
        let i = choose|i: int| 0 <= i < text.len() && is_control(#[trigger] text[i]);
        assert((text[i] as int) <= 0x1f || 0x7f <= (text[i] as int) <= 0x9f);
    } else {
        assert forall|i: int| 0 <= i < text.len() implies {
            let code = (#[trigger] text[i]) as int;
            code == 0x9 || code == 0xa || code == 0xd || 0x20 <= code <= 0x7e || code >= 0xa0
        } by {
            assert(!is_control(text[i]));
        }
    }
}

/// Whether a template has an environment: the one at `e` of the job where `s` is
/// -1, of the step at `s` otherwise.
pub open spec fn has_environment(jt: JobTemplate, s: int, e: int) -> bool {
    if s == -1 {
        jt.job_environments matches Some(list) && 0 <= e < list@.len()
    } else {
        0 <= s < jt.steps@.len() && (jt.steps@[s].step_environments matches Some(list) && 0 <= e
            < list@.len())
    }
}

/// An environment of a template.
pub open spec fn environment_at(jt: JobTemplate, s: int, e: int) -> Environment {
    if s == -1 {
        jt.job_environments->0@[e]
    } else {
        jt.steps@[s].step_environments->0@[e]
    }
}

/// Whether an environment defines a wrap hook.
pub open spec fn wraps(e: Environment) -> bool {
    e.actions.on_wrap_env_enter is Some || e.actions.on_wrap_task_run is Some
        || e.actions.on_wrap_env_exit is Some
}

/// Whether an environment defines all wrap hooks.
pub open spec fn wraps_fully(e: Environment) -> bool {
    e.actions.on_wrap_env_enter is Some && e.actions.on_wrap_task_run is Some
        && e.actions.on_wrap_env_exit is Some
}

/// Whether a job parameter may have a type.
pub open spec fn is_allowed_type(text: Seq<char>, expr: bool) -> bool {
    ||| text == "STRING"@ || text == "PATH"@ || text == "INT"@ || text == "FLOAT"@
    ||| expr && (text == "BOOL"@ || text == "RANGE_EXPR"@ || text == "LIST[STRING]"@ || text
        == "LIST[PATH]"@ || text == "LIST[INT]"@ || text == "LIST[FLOAT]"@ || text == "LIST[BOOL]"@
        || text == "LIST[LIST[INT]]"@)
}

/// Whether the name and the description of a job are sound.
pub open spec fn texts_are_sound(jt: JobTemplate, limits: EffectiveLimits) -> bool {
    &&& 0 < jt.name.text().len() <= limits.max_job_name_len
    &&& is_clean(jt.name.text())
    &&& jt.description matches Some(text) ==> text@.len() <= limits.max_description_len && is_clean(
        text@,
    )
}

/// Whether the steps of a job are sound.
pub open spec fn steps_are_sound(steps: Seq<StepTemplate>, max_len: nat) -> bool {
    &&& steps.len() > 0
    &&& forall|i: int|
        0 <= i < steps.len() ==> 0 < (#[trigger] steps[i]).name@.len() <= max_len && is_clean(
            steps[i].name@,
        )
    &&& forall|i: int, j: int|
        0 <= i < j < steps.len() ==> (#[trigger] steps[i]).name@ != (#[trigger] steps[j]).name@
}

/// Whether the parameter definitions of a job are sound.
pub open spec fn parameters_are_sound(
    definitions: Option<Vec<JobParameterDefinition>>,
    max_count: nat,
    max_len: nat,
    expr: bool,
) -> bool {
    definitions matches Some(list) ==> {
        &&& 0 < list@.len() <= max_count
        &&& forall|i: int|
            0 <= i < list@.len() ==> (#[trigger] list@[i]).name@.len() <= max_len && is_allowed_type(
                list@[i].param_type@,
                expr,
            )
        &&& forall|i: int, j: int|
            0 <= i < j < list@.len() ==> (#[trigger] list@[i]).name@ != (#[trigger] list@[j]).name@
    }
}

/// Whether the environments of a job are sound: their names are within the limit
/// and differ; a wrap hook needs the extension and the other hooks; and the
/// environments of the job and of a step, which share a session, hold one at
/// most that wraps.
pub open spec fn environments_are_sound(
    jt: JobTemplate,
    extensions: Set<ModelExtension>,
    max_len: nat,
) -> bool {
    &&& forall|s: int, e: int| #[trigger]
        has_environment(jt, s, e) ==> environment_at(jt, s, e).name@.len() <= max_len && (wraps(
            environment_at(jt, s, e),
        ) ==> extensions.contains(ModelExtension::WrapActions) && wraps_fully(environment_at(jt, s, e)))
    &&& forall|s: int, e: int, t: int, f: int|
        #[trigger] has_environment(jt, s, e) && #[trigger] has_environment(jt, t, f) && (s, e) != (t, f)
            ==> environment_at(jt, s, e).name@ != environment_at(jt, t, f).name@ && ((s == -1 || s == t)
            ==> !(wraps(environment_at(jt, s, e)) && wraps(environment_at(jt, t, f))))
}

proof fn lemma_repeats(named: Seq<(Seq<char>, Seq<char>)>)
    ensures
        (repeats(named).len() == 0) <==> forall|i: int, j: int|
            0 <= i < j < named.len() ==> (#[trigger] named[i]).1 != (#[trigger] named[j]).1,
    decreases named.len(),
{
    if named.len() > 0 {
        let shorter = named.drop_last();
        lemma_repeats(shorter);
        if repeats(named).len() == 0 {
            assert forall|i: int, j: int| 0 <= i < j < named.len() implies (#[trigger] named[i]).1 != (
            #[trigger] named[j]).1 by {
                assert(shorter[i] == named[i]);
                if j < shorter.len() {
                    assert(shorter[j] == named[j]);
                } else {
                    assert(!name_occurs(shorter, named.last().1));
                }
            }
        }
        if forall|i: int, j: int|
            0 <= i < j < named.len() ==> (#[trigger] named[i]).1 != (#[trigger] named[j]).1 {
            assert forall|i: int, j: int| 0 <= i < j < shorter.len() implies (#[trigger] shorter[i]).1
                != (#[trigger] shorter[j]).1 by {
                assert(shorter[i] == named[i] && shorter[j] == named[j]);
            }
            if name_occurs(shorter, named.last().1) {
                let i = choose|i: int| 0 <= i < shorter.len() && (#[trigger] shorter[i]).1 == named.last().1;
                assert(named[i].1 != named[named.len() - 1].1);
            }
        }
    }
}

proof fn lemma_lengths(named: Seq<(Seq<char>, Seq<char>)>, limit: nat)
    ensures
        (all_length_findings(named, limit).len() == 0) <==> forall|i: int|
            0 <= i < named.len() ==> (#[trigger] named[i]).1.len() <= limit,
    decreases named.len(),
{
    if named.len() > 0 {
        let shorter = named.drop_last();
        lemma_lengths(shorter, limit);
        assert(forall|i: int| 0 <= i < shorter.len() ==> #[trigger] shorter[i] == named[i]);
        if forall|i: int| 0 <= i < shorter.len() ==> (#[trigger] shorter[i]).1.len() <= limit {
            assert forall|i: int| 0 <= i < named.len() - 1 implies (#[trigger] named[i]).1.len() <= limit by {
                assert(shorter[i] == named[i]);
            }
        } else {
            let i = choose|i: int| 0 <= i < shorter.len() && (#[trigger] shorter[i]).1.len() > limit;
            assert(named[i].1.len() > limit);
        }
        assert(named[named.len() - 1] == named.last());
    }
}

proof fn lemma_names(named: Seq<(Seq<char>, Seq<char>)>)
    ensures
        (all_name_findings(named).len() == 0) <==> forall|i: int|
            0 <= i < named.len() ==> (#[trigger] named[i]).1.len() > 0 && is_clean(named[i].1),
    decreases named.len(),
{
    if named.len() > 0 {
        let shorter = named.drop_last();
        lemma_names(shorter);
        control_characters_are_those_of_unicode(named.last().1);
        if forall|i: int|
            0 <= i < shorter.len() ==> (#[trigger] shorter[i]).1.len() > 0 && is_clean(shorter[i].1) {
            assert forall|i: int| 0 <= i < named.len() - 1 implies (#[trigger] named[i]).1.len() > 0
                && is_clean(named[i].1) by {
                assert(shorter[i] == named[i]);
            }
        } else {
            let i = choose|i: int|
                0 <= i < shorter.len() && !((#[trigger] shorter[i]).1.len() > 0 && is_clean(shorter[i].1));
            assert(shorter[i] == named[i]);
        }
        assert(named[named.len() - 1] == named.last());
    }
}

proof fn lemma_types(definitions: Seq<JobParameterDefinition>, expr: bool)
    ensures
        (type_findings(definitions, expr).len() == 0) <==> forall|i: int|
            0 <= i < definitions.len() ==> is_allowed_type((#[trigger] definitions[i]).param_type@, expr),
    decreases definitions.len(),
{
    if definitions.len() > 0 {
        let shorter = definitions.drop_last();
        lemma_types(shorter, expr);
        assert(is_param_type(definitions.last().param_type@, expr) == is_allowed_type(
            definitions.last().param_type@,
            expr,
        ));
        if forall|i: int|
            0 <= i < shorter.len() ==> is_allowed_type((#[trigger] shorter[i]).param_type@, expr) {
            assert forall|i: int| 0 <= i < definitions.len() - 1 implies is_allowed_type(
                (#[trigger] definitions[i]).param_type@,
                expr,
            ) by {
                assert(shorter[i] == definitions[i]);
            }
        } else {
            let i = choose|i: int|
                0 <= i < shorter.len() && !is_allowed_type((#[trigger] shorter[i]).param_type@, expr);
            assert(shorter[i] == definitions[i]);
        }
        assert(definitions[definitions.len() - 1] == definitions.last());
    }
}

proof fn lemma_texts(jt: JobTemplate, limits: EffectiveLimits)
    ensures
        (job_text_findings(jt, limits).len() == 0) <==> texts_are_sound(jt, limits),
{
    control_characters_are_those_of_unicode(jt.name.text());
    if let Some(text) = jt.description {
        control_characters_are_those_of_unicode(text@);
    }
}

proof fn lemma_steps(steps: Seq<StepTemplate>, max_len: nat)
    ensures
        (step_findings(steps, max_len).len() == 0) <==> steps_are_sound(steps, max_len),
{
    let named = step_names(steps);
    lemma_lengths(named, max_len);
    lemma_names(named);
    lemma_repeats(named);
    assert(forall|i: int| 0 <= i < steps.len() ==> (#[trigger] named[i]).1 == steps[i].name@);
    if step_findings(steps, max_len).len() == 0 {
        assert forall|i: int| 0 <= i < steps.len() implies 0 < (#[trigger] steps[i]).name@.len() <= max_len
            && is_clean(steps[i].name@) by {
            assert(named[i].1 == steps[i].name@);
        }
        assert forall|i: int, j: int| 0 <= i < j < steps.len() implies (#[trigger] steps[i]).name@ != (
        #[trigger] steps[j]).name@ by {
            assert(named[i].1 != named[j].1);
        }
    }
}

proof fn lemma_parameters(
    definitions: Option<Vec<JobParameterDefinition>>,
    max_count: nat,
    max_len: nat,
    expr: bool,
)
    ensures
        (parameter_findings(definitions, max_count, max_len, expr).len() == 0) <==> parameters_are_sound(
            definitions,
            max_count,
            max_len,
            expr,
        ),
{
    if let Some(list) = definitions {
        let named = parameter_names(list@);
        lemma_lengths(named, max_len);
        lemma_repeats(named);
        lemma_types(list@, expr);
        assert(forall|i: int| 0 <= i < list@.len() ==> (#[trigger] named[i]).1 == list@[i].name@);
        if parameter_findings(definitions, max_count, max_len, expr).len() == 0 {
            assert forall|i: int| 0 <= i < list@.len() implies (#[trigger] list@[i]).name@.len() <= max_len by {
                assert(named[i].1 == list@[i].name@);
            }
            assert forall|i: int, j: int| 0 <= i < j < list@.len() implies (#[trigger] list@[i]).name@ != (
            #[trigger] list@[j]).name@ by {
                assert(named[i].1 != named[j].1);
            }
        }
    }
}

/// The number of environments of the steps before one.
spec fn start_of(steps: Seq<StepTemplate>, s: int) -> int {
    places_of_steps(steps.take(s)).len() as int
}

proof fn lemma_step_place(steps: Seq<StepTemplate>, s: int, e: int)
    requires
        0 <= s < steps.len(),
        0 <= e < listed(steps[s].step_environments).len(),
    ensures
        0 <= start_of(steps, s) + e < places_of_steps(steps).len(),
        places_of_steps(steps)[start_of(steps, s) + e] == places_of_step(steps, s)[e],
    decreases steps.len(),
{
    let shorter = steps.drop_last();
    if s == steps.len() - 1 {
        assert(steps.take(s) =~= shorter);
    } else {
        lemma_step_place(shorter, s, e);
        assert(shorter.take(s) =~= steps.take(s));
        assert(shorter[s] == steps[s]);
    }
}

proof fn lemma_place_origin(steps: Seq<StepTemplate>, p: int) -> (origin: (int, int))
    requires
        0 <= p < places_of_steps(steps).len(),
    ensures
        0 <= origin.0 < steps.len(),
        0 <= origin.1 < listed(steps[origin.0].step_environments).len(),
        p == start_of(steps, origin.0) + origin.1,
    decreases steps.len(),
{
    let shorter = steps.drop_last();
    let before = places_of_steps(shorter).len() as int;
    if p < before {
        let (s, e) = lemma_place_origin(shorter, p);
        assert(shorter.take(s) =~= steps.take(s));
        assert(shorter[s] == steps[s]);
        (s, e)
    } else {
        assert(steps.take(steps.len() - 1) =~= shorter);
        (steps.len() - 1, p - before)
    }
}

proof fn lemma_starts_grow(steps: Seq<StepTemplate>, s: int, t: int)
    requires
        0 <= s < t <= steps.len(),
    ensures
        start_of(steps, s) + listed(steps[s].step_environments).len() <= start_of(steps, t),
    decreases t - s,
{
    if t == s + 1 {
        assert(steps.take(t).drop_last() =~= steps.take(s));
        assert(steps.take(t)[s] == steps[s]);
    } else {
        lemma_starts_grow(steps, s, t - 1);
        assert(steps.take(t).drop_last() =~= steps.take(t - 1));
    }
}

/// The place of an environment among all of a template.
spec fn place_of(jt: JobTemplate, s: int, e: int) -> int {
    if s == -1 {
        e
    } else {
        listed(jt.job_environments).len() + start_of(jt.steps@, s) + e
    }
}

proof fn lemma_place_of(jt: JobTemplate, s: int, e: int)
    requires
        has_environment(jt, s, e),
    ensures
        0 <= place_of(jt, s, e) < all_places(jt).len(),
        all_places(jt)[place_of(jt, s, e)].name == environment_at(jt, s, e).name@,
        all_places(jt)[place_of(jt, s, e)].hooks == hook_count(environment_at(jt, s, e)),
{
    if s != -1 {
        lemma_step_place(jt.steps@, s, e);
    }
}

proof fn lemma_places_differ(jt: JobTemplate, s: int, e: int, t: int, f: int)
    requires
        has_environment(jt, s, e),
        has_environment(jt, t, f),
        (s, e) != (t, f),
    ensures
        place_of(jt, s, e) != place_of(jt, t, f),
{
    if s != -1 && t != -1 {
        if s < t {
            lemma_starts_grow(jt.steps@, s, t);
        } else if t < s {
            lemma_starts_grow(jt.steps@, t, s);
        }
    }
}

proof fn lemma_origin(jt: JobTemplate, p: int) -> (origin: (int, int))
    requires
        0 <= p < all_places(jt).len(),
    ensures
        has_environment(jt, origin.0, origin.1),
        p == place_of(jt, origin.0, origin.1),
{
    let jobs = listed(jt.job_environments).len() as int;
    if p < jobs {
        (-1, p)
    } else {
        lemma_place_origin(jt.steps@, p - jobs)
    }
}

/// Whether the names of all environments are within the limit and differ.
spec fn environment_names_are_sound(jt: JobTemplate, max_len: nat) -> bool {
    &&& forall|s: int, e: int| #[trigger]
        has_environment(jt, s, e) ==> environment_at(jt, s, e).name@.len() <= max_len
    &&& forall|s: int, e: int, t: int, f: int|
        #[trigger] has_environment(jt, s, e) && #[trigger] has_environment(jt, t, f) && (s, e) != (t, f)
            ==> environment_at(jt, s, e).name@ != environment_at(jt, t, f).name@
}

proof fn lemma_environment_names(jt: JobTemplate, max_len: nat)
    ensures
        (environment_name_findings(jt, max_len).len() == 0) <==> environment_names_are_sound(jt, max_len),
{
    let places = all_places(jt);
    let names = names_of_places(places);
    lemma_lengths(names, max_len);
    lemma_repeats(names);
    if environment_name_findings(jt, max_len).len() == 0 {
        assert forall|s: int, e: int| #[trigger] has_environment(jt, s, e) implies environment_at(
            jt,
            s,
            e,
        ).name@.len() <= max_len by {
            lemma_place_of(jt, s, e);
            assert(names[place_of(jt, s, e)].1.len() <= max_len);
        }
        assert forall|s: int, e: int, t: int, f: int|
            #[trigger] has_environment(jt, s, e) && #[trigger] has_environment(jt, t, f) && (s, e) != (
            t,
            f,
        ) implies environment_at(jt, s, e).name@ != environment_at(jt, t, f).name@ by {
            lemma_place_of(jt, s, e);
            lemma_place_of(jt, t, f);
            lemma_places_differ(jt, s, e, t, f);
            let (p, q) = (place_of(jt, s, e), place_of(jt, t, f));
            if p < q {
                assert(names[p].1 != names[q].1);
            } else {
                assert(names[q].1 != names[p].1);
            }
        }
    }
    if environment_names_are_sound(jt, max_len) {
        assert forall|i: int| 0 <= i < names.len() implies (#[trigger] names[i]).1.len() <= max_len by {
            let (s, e) = lemma_origin(jt, i);
            lemma_place_of(jt, s, e);
        }
        assert forall|i: int, j: int| 0 <= i < j < names.len() implies (#[trigger] names[i]).1 != (
        #[trigger] names[j]).1 by {
            let (s, e) = lemma_origin(jt, i);
            let (t, f) = lemma_origin(jt, j);
            lemma_place_of(jt, s, e);
            lemma_place_of(jt, t, f);
        }
    }
}

proof fn lemma_gates(places: Seq<PlaceView>, enabled: bool)
    ensures
        (gate_findings(places, enabled).len() == 0) <==> forall|i: int|
            0 <= i < places.len() ==> (#[trigger] places[i]).hooks == 0 || (enabled && places[i].hooks
                >= 3),
    decreases places.len(),
{
    if places.len() > 0 {
        let shorter = places.drop_last();
        lemma_gates(shorter, enabled);
        if forall|i: int|
            0 <= i < shorter.len() ==> (#[trigger] shorter[i]).hooks == 0 || (enabled && shorter[i].hooks
                >= 3) {
            assert forall|i: int| 0 <= i < places.len() - 1 implies (#[trigger] places[i]).hooks == 0 || (
            enabled && places[i].hooks >= 3) by {
                assert(shorter[i] == places[i]);
            }
        } else {
            let i = choose|i: int|
                0 <= i < shorter.len() && !((#[trigger] shorter[i]).hooks == 0 || (enabled
                    && shorter[i].hooks >= 3));
            assert(shorter[i] == places[i]);
        }
        assert(places[places.len() - 1] == places.last());
    }
}

proof fn lemma_wrapping(environments: Seq<Environment>)
    ensures
        (wrapping(environments) == 0) <==> forall|i: int|
            0 <= i < environments.len() ==> !wraps(#[trigger] environments[i]),
        (wrapping(environments) <= 1) <==> forall|i: int, j: int|
            0 <= i < j < environments.len() ==> !(wraps(#[trigger] environments[i]) && wraps(
                #[trigger] environments[j],
            )),
    decreases environments.len(),
{
    if environments.len() > 0 {
        let shorter = environments.drop_last();
        let last = environments.len() - 1;
        lemma_wrapping(shorter);
        assert(forall|i: int| 0 <= i < last ==> #[trigger] shorter[i] == environments[i]);
        assert(environments[last] == environments.last());
        if forall|i: int| 0 <= i < shorter.len() ==> !wraps(#[trigger] shorter[i]) {
            assert forall|i: int| 0 <= i < last implies !wraps(#[trigger] environments[i]) by {
                assert(shorter[i] == environments[i]);
            }
        } else {
            let i = choose|i: int| 0 <= i < shorter.len() && wraps(#[trigger] shorter[i]);
            assert(wraps(environments[i]));
        }
        if forall|i: int, j: int|
            0 <= i < j < shorter.len() ==> !(wraps(#[trigger] shorter[i]) && wraps(#[trigger] shorter[j])) {
            assert forall|i: int, j: int| 0 <= i < j < last implies !(wraps(#[trigger] environments[i])
                && wraps(#[trigger] environments[j])) by {
                assert(shorter[i] == environments[i] && shorter[j] == environments[j]);
            }
        } else {
            let (i, j) = choose|i: int, j: int|
                0 <= i < j < shorter.len() && wraps(#[trigger] shorter[i]) && wraps(#[trigger] shorter[j]);
            assert(wraps(environments[i]) && wraps(environments[j]));
        }
    }
}

proof fn lemma_step_layers(in_job: nat, steps: Seq<StepTemplate>)
    ensures
        (step_layer_findings(in_job, steps).len() == 0) <==> forall|s: int|
            0 <= s < steps.len() ==> wrapping(listed((#[trigger] steps[s]).step_environments)) == 0
                || in_job + wrapping(listed(steps[s].step_environments)) <= 1,
    decreases steps.len(),
{
    if steps.len() > 0 {
        let shorter = steps.drop_last();
        lemma_step_layers(in_job, shorter);
        if forall|s: int|
            0 <= s < shorter.len() ==> wrapping(listed((#[trigger] shorter[s]).step_environments)) == 0
                || in_job + wrapping(listed(shorter[s].step_environments)) <= 1 {
            assert forall|s: int| 0 <= s < steps.len() - 1 implies wrapping(
                listed((#[trigger] steps[s]).step_environments),
            ) == 0 || in_job + wrapping(listed(steps[s].step_environments)) <= 1 by {
                assert(shorter[s] == steps[s]);
            }
        } else {
            let s = choose|s: int|
                0 <= s < shorter.len() && !(wrapping(listed((#[trigger] shorter[s]).step_environments))
                    == 0 || in_job + wrapping(listed(shorter[s].step_environments)) <= 1);
            assert(shorter[s] == steps[s]);
        }
        assert(steps[steps.len() - 1] == steps.last());
    }
}

/// Whether two environments of one session both wrap.
spec fn layers_are_sound(jt: JobTemplate) -> bool {
    forall|s: int, e: int, t: int, f: int|
        #[trigger] has_environment(jt, s, e) && #[trigger] has_environment(jt, t, f) && (s, e) != (t, f)
            && (s == -1 || s == t) ==> !(wraps(environment_at(jt, s, e)) && wraps(
            environment_at(jt, t, f),
        ))
}

proof fn lemma_layers(jt: JobTemplate)
    ensures
        (layer_findings(jt).len() == 0) <==> layers_are_sound(jt),
{
    let jobs = listed(jt.job_environments);
    let in_job = wrapping(jobs);
    let steps = jt.steps@;
    lemma_wrapping(jobs);
    lemma_step_layers(in_job, steps);
    if layer_findings(jt).len() == 0 {
        assert forall|s: int, e: int, t: int, f: int|
            #[trigger] has_environment(jt, s, e) && #[trigger] has_environment(jt, t, f) && (s, e) != (
            t,
            f,
        ) && (s == -1 || s == t) implies !(wraps(environment_at(jt, s, e)) && wraps(
            environment_at(jt, t, f),
        )) by {
            if s == -1 && t == -1 {
                if e < f {
                    assert(!(wraps(jobs[e]) && wraps(jobs[f])));
                } else {
                    assert(!(wraps(jobs[f]) && wraps(jobs[e])));
                }
            } else {
                let own = listed(steps[t].step_environments);
                lemma_wrapping(own);
                if wraps(own[f]) {
                    assert(wrapping(own) > 0);
                    if s == -1 {
                        assert(in_job == 0);
                        assert(!wraps(jobs[e]));
                    } else if e < f {
                        assert(!(wraps(own[e]) && wraps(own[f])));
                    } else {
                        assert(!(wraps(own[f]) && wraps(own[e])));
                    }
                }
            }
        }
    }
    if layers_are_sound(jt) {
        assert forall|i: int, j: int| 0 <= i < j < jobs.len() implies !(wraps(#[trigger] jobs[i]) && wraps(
            #[trigger] jobs[j],
        )) by {
            assert(has_environment(jt, -1, i) && has_environment(jt, -1, j));
        }
        assert forall|s: int| 0 <= s < steps.len() implies wrapping(
            listed((#[trigger] steps[s]).step_environments),
        ) == 0 || in_job + wrapping(listed(steps[s].step_environments)) <= 1 by {
            let own = listed(steps[s].step_environments);
            lemma_wrapping(own);
            assert forall|i: int, j: int| 0 <= i < j < own.len() implies !(wraps(#[trigger] own[i])
                && wraps(#[trigger] own[j])) by {
                assert(has_environment(jt, s, i) && has_environment(jt, s, j));
            }
            if wrapping(own) > 0 && in_job > 0 {
                let i = choose|i: int| 0 <= i < own.len() && wraps(#[trigger] own[i]);
                let j = choose|j: int| 0 <= j < jobs.len() && wraps(#[trigger] jobs[j]);
                assert(has_environment(jt, -1, j) && has_environment(jt, s, i));
            }
        }
    }
}

/// Whether every wrap hook has the extension and the other hooks.
spec fn hooks_are_sound(jt: JobTemplate, enabled: bool) -> bool {
    forall|s: int, e: int| #[trigger]
        has_environment(jt, s, e) ==> wraps(environment_at(jt, s, e)) ==> enabled && wraps_fully(
            environment_at(jt, s, e),
        )
}

proof fn lemma_hooks(jt: JobTemplate, enabled: bool)
    ensures
        (gate_findings(all_places(jt), enabled).len() == 0) <==> hooks_are_sound(jt, enabled),
{
    let places = all_places(jt);
    lemma_gates(places, enabled);
    if gate_findings(places, enabled).len() == 0 {
        assert forall|s: int, e: int| #[trigger]
            has_environment(jt, s, e) && wraps(environment_at(jt, s, e)) implies enabled && wraps_fully(
            environment_at(jt, s, e),
        ) by {
            lemma_place_of(jt, s, e);
            let place = places[place_of(jt, s, e)];
            assert(place.hooks == 0 || (enabled && place.hooks >= 3));
        }
    }
    if hooks_are_sound(jt, enabled) {
        assert forall|i: int| 0 <= i < places.len() implies (#[trigger] places[i]).hooks == 0 || (enabled
            && places[i].hooks >= 3) by {
            let (s, e) = lemma_origin(jt, i);
            lemma_place_of(jt, s, e);
        }
    }
}

/// A job template is accepted if and only if its texts, steps, parameters and
/// environments are sound, and the extension for wrap hooks comes with that for
/// expressions.
pub proof fn templates_are_accepted_exactly_when_sound(
    jt: JobTemplate,
    extensions: Set<ModelExtension>,
    limits: EffectiveLimits,
)
    ensures
        (job_findings(jt, extensions, limits).len() == 0) <==> {
            &&& texts_are_sound(jt, limits)
            &&& steps_are_sound(jt.steps@, limits.max_step_name_len as nat)
            &&& parameters_are_sound(
                jt.parameter_definitions,
                limits.max_param_count as nat,
                limits.max_identifier_len as nat,
                extensions.contains(ModelExtension::Expr),
            )
            &&& environments_are_sound(jt, extensions, limits.max_env_name_len as nat)
            &&& extensions.contains(ModelExtension::WrapActions) ==> extensions.contains(
                ModelExtension::Expr,
            )
        },
{
    let enabled = extensions.contains(ModelExtension::WrapActions);
    let max_len = limits.max_env_name_len as nat;
    lemma_texts(jt, limits);
    lemma_steps(jt.steps@, limits.max_step_name_len as nat);
    lemma_parameters(
        jt.parameter_definitions,
        limits.max_param_count as nat,
        limits.max_identifier_len as nat,
        extensions.contains(ModelExtension::Expr),
    );
    lemma_environment_names(jt, max_len);
    lemma_hooks(jt, enabled);
    lemma_layers(jt);
    if environments_are_sound(jt, extensions, max_len) {
        assert(environment_names_are_sound(jt, max_len));
        assert(hooks_are_sound(jt, enabled));
        assert(layers_are_sound(jt));
    }
    if environment_names_are_sound(jt, max_len) && hooks_are_sound(jt, enabled) && (enabled
        ==> layers_are_sound(jt)) {
        assert forall|s: int, e: int, t: int, f: int|
            #[trigger] has_environment(jt, s, e) && #[trigger] has_environment(jt, t, f) && (s, e) != (
            t,
            f,
        ) implies environment_at(jt, s, e).name@ != environment_at(jt, t, f).name@ && ((s == -1 || s == t)
            ==> !(wraps(environment_at(jt, s, e)) && wraps(environment_at(jt, t, f)))) by {
        }
        assert(environments_are_sound(jt, extensions, max_len));
    }
}

/// An environment template is accepted if and only if its parameters are sound,
/// its name is within the limit, and its wrap hooks have their extension, which
/// comes with that for expressions, and come together.
pub proof fn environment_templates_are_accepted_exactly_when_sound(
    et: EnvironmentTemplate,
    extensions: Set<ModelExtension>,
    limits: EffectiveLimits,
)
    ensures
        (environment_findings(et, extensions, limits).len() == 0) <==> {
            &&& parameters_are_sound(
                et.parameter_definitions,
                limits.max_env_template_param_count as nat,
                limits.max_identifier_len as nat,
                extensions.contains(ModelExtension::Expr),
            )
            &&& et.environment.name@.len() <= limits.max_env_name_len
            &&& extensions.contains(ModelExtension::WrapActions) ==> extensions.contains(
                ModelExtension::Expr,
            )
            &&& wraps(et.environment) ==> extensions.contains(ModelExtension::WrapActions)
                && wraps_fully(et.environment)
        },
{
    lemma_parameters(
        et.parameter_definitions,
        limits.max_env_template_param_count as nat,
        limits.max_identifier_len as nat,
        extensions.contains(ModelExtension::Expr),
    );
}

/// The place of an element of a list in findings.
pub open spec fn element(list: Seq<char>, i: int) -> Seq<char> {
    list + "["@ + decimal(i as nat) + "]"@
}

proof fn lemma_part_is_kept(a: Seq<Finding>, b: Seq<Finding>, f: Finding)
    ensures
        a.contains(f) || b.contains(f) ==> (a + b).contains(f),
{
    if a.contains(f) {
        let i = choose|i: int| 0 <= i < a.len() && a[i] == f;
        assert((a + b)[i] == f);
    } else if b.contains(f) {
        let i = choose|i: int| 0 <= i < b.len() && b[i] == f;
        assert((a + b)[a.len() + i] == f);
    }
}

proof fn lemma_name_reported(named: Seq<(Seq<char>, Seq<char>)>, i: int)
    requires
        0 <= i < named.len(),
    ensures
        forall|f: Finding| #[trigger]
            name_findings(named[i].0, named[i].1).contains(f) ==> all_name_findings(named).contains(f),
    decreases named.len(),
{
    assert forall|f: Finding| #[trigger] name_findings(named[i].0, named[i].1).contains(f) implies
        all_name_findings(named).contains(f) by {
        let shorter = named.drop_last();
        if i < shorter.len() {
            lemma_name_reported(shorter, i);
            assert(shorter[i] == named[i]);
        }
        lemma_part_is_kept(
            all_name_findings(shorter),
            name_findings(named.last().0, named.last().1),
            f,
        );
    }
}

proof fn lemma_repeat_reported(named: Seq<(Seq<char>, Seq<char>)>, i: int, j: int)
    requires
        0 <= i < j < named.len(),
        named[i].1 == named[j].1,
    ensures
        repeats(named).contains(
            Finding { path: named[j].0, message: "duplicate name: "@ + named[j].1 },
        ),
    decreases named.len(),
{
    let f = Finding { path: named[j].0, message: "duplicate name: "@ + named[j].1 };
    let shorter = named.drop_last();
    let before = repeats(shorter);
    assert(shorter[i] == named[i]);
    if j < shorter.len() {
        assert(shorter[j] == named[j]);
        lemma_repeat_reported(shorter, i, j);
        let k = choose|k: int| 0 <= k < before.len() && before[k] == f;
        assert(repeats(named)[k] == f);
    } else {
        assert(name_occurs(shorter, named.last().1));
        assert(repeats(named).last() == f);
    }
}

proof fn lemma_type_reported(definitions: Seq<JobParameterDefinition>, expr: bool, i: int)
    requires
        0 <= i < definitions.len(),
        !is_allowed_type(definitions[i].param_type@, expr),
    ensures
        type_findings(definitions, expr).contains(
            Finding {
                path: element("parameterDefinitions"@, i),
                message: "parameter type is not allowed: "@ + definitions[i].param_type@,
            },
        ),
    decreases definitions.len(),
{
    let f = Finding {
        path: element("parameterDefinitions"@, i),
        message: "parameter type is not allowed: "@ + definitions[i].param_type@,
    };
    let shorter = definitions.drop_last();
    let before = type_findings(shorter, expr);
    if i < shorter.len() {
        assert(shorter[i] == definitions[i]);
        lemma_type_reported(shorter, expr, i);
        let k = choose|k: int| 0 <= k < before.len() && before[k] == f;
        assert(type_findings(definitions, expr)[k] == f);
    } else {
        assert(type_findings(definitions, expr).last() == f);
    }
}

/// What is wrong with a step or a parameter is reported with its place,
/// whatever else is wrong with the template.
pub proof fn every_fault_is_reported(
    jt: JobTemplate,
    extensions: Set<ModelExtension>,
    limits: EffectiveLimits,
    i: int,
    j: int,
)
    ensures
        ({
            let found = job_findings(jt, extensions, limits);
            let steps = jt.steps@;
            &&& jt.name.text().len() == 0 ==> found.contains(
                Finding { path: "name"@, message: "must not be empty"@ },
            )
            &&& !is_clean(jt.name.text()) ==> found.contains(
                Finding { path: "name"@, message: "must not contain control characters"@ },
            )
            &&& steps.len() == 0 ==> found.contains(
                Finding { path: "steps"@, message: "at least one step is required"@ },
            )
            &&& 0 <= i < steps.len() && !is_clean(steps[i].name@) ==> found.contains(
                Finding {
                    path: element("steps"@, i),
                    message: "must not contain control characters"@,
                },
            )
            &&& 0 <= i < j < steps.len() && steps[i].name@ == steps[j].name@ ==> found.contains(
                Finding {
                    path: element("steps"@, j),
                    message: "duplicate name: "@ + steps[j].name@,
                },
            )
            &&& jt.parameter_definitions matches Some(list) ==> 0 <= i < list@.len() && !is_allowed_type(
                list@[i].param_type@,
                extensions.contains(ModelExtension::Expr),
            ) ==> found.contains(
                Finding {
                    path: element("parameterDefinitions"@, i),
                    message: "parameter type is not allowed: "@ + list@[i].param_type@,
                },
            )
        }),
{
    let steps = jt.steps@;
    let expr = extensions.contains(ModelExtension::Expr);
    let texts = job_text_findings(jt, limits);
    let of_steps = step_findings(steps, limits.max_step_name_len as nat);
    let of_parameters = parameter_findings(
        jt.parameter_definitions,
        limits.max_param_count as nat,
        limits.max_identifier_len as nat,
        expr,
    );
    let names = environment_name_findings(jt, limits.max_env_name_len as nat);
    let hooks = wrap_findings(jt, extensions);
    assert forall|f: Finding|
        #![trigger texts.contains(f)]
        #![trigger of_steps.contains(f)]
        #![trigger of_parameters.contains(f)]
        texts.contains(f) || of_steps.contains(f) || of_parameters.contains(f) implies job_findings(
        jt,
        extensions,
        limits,
    ).contains(f) by {
        lemma_part_is_kept(texts, of_steps, f);
        lemma_part_is_kept(texts + of_steps, of_parameters, f);
        lemma_part_is_kept(texts + of_steps + of_parameters, names, f);
        lemma_part_is_kept(texts + of_steps + of_parameters + names, hooks, f);
    }
    // The name.
    let name = jt.name.text();
    control_characters_are_those_of_unicode(name);
    if name.len() == 0 || !is_clean(name) {
        let f = Finding {
            path: "name"@,
            message: if name.len() == 0 {
                "must not be empty"@
            } else {
                "must not contain control characters"@
            },
        };
        let own = name_findings("name"@, name);
        assert(own[0] == f);
        let lengths = crate::model::validate_v2023_09::length_findings(
            "name"@,
            name,
            limits.max_job_name_len as nat,
        );
        assert(texts[lengths.len() as int] == f);
        assert(texts.contains(f));
    }
    // The steps.
    let named = step_names(steps);
    if steps.len() == 0 {
        let f = Finding { path: "steps"@, message: "at least one step is required"@ };
        assert(of_steps[0] == f);
        assert(of_steps.contains(f));
    } else {
        let lengths = all_length_findings(named, limits.max_step_name_len as nat);
        let sound = all_name_findings(named);
        let twice = repeats(named);
        assert forall|f: Finding|
            #![trigger sound.contains(f)]
            #![trigger twice.contains(f)]
            sound.contains(f) || twice.contains(f) implies of_steps.contains(f) by {
            lemma_part_is_kept(lengths, sound, f);
            lemma_part_is_kept(lengths + sound, twice, f);
        }
        if 0 <= i < steps.len() && !is_clean(steps[i].name@) {
            let f = Finding {
                path: element("steps"@, i),
                message: "must not contain control characters"@,
            };
            control_characters_are_those_of_unicode(steps[i].name@);
            lemma_name_reported(named, i);
            assert(name_findings(named[i].0, named[i].1)[0] == f);
            assert(name_findings(named[i].0, named[i].1).contains(f));
            assert(sound.contains(f));
        }
        if 0 <= i < j < steps.len() && steps[i].name@ == steps[j].name@ {
            assert(named[i].1 == named[j].1);
            lemma_repeat_reported(named, i, j);
            assert(twice.contains(
                Finding {
                    path: element("steps"@, j),
                    message: "duplicate name: "@ + steps[j].name@,
                },
            ));
        }
    }
    // The parameters.
    if let Some(list) = jt.parameter_definitions {
        if 0 <= i < list@.len() && !is_allowed_type(list@[i].param_type@, expr) {
            lemma_type_reported(list@, expr, i);
            let f = Finding {
                path: element("parameterDefinitions"@, i),
                message: "parameter type is not allowed: "@ + list@[i].param_type@,
            };
            let types = type_findings(list@, expr);
            let k = choose|k: int| 0 <= k < types.len() && types[k] == f;
            let before = of_parameters.len() - types.len();
            assert(of_parameters[before + k] == f);
            assert(of_parameters.contains(f));
        }
    }
}

} // verus!
