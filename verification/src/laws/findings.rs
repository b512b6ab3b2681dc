//! Where findings are and what they say.

use vstd::prelude::*;

use crate::model::error::Finding;
use crate::model::template::{listed, JobParameterDefinition, JobTemplate, StepTemplate};
use crate::model::types::ModelExtension;
use crate::model::validate_v2023_09::{
    count_findings, extension_findings, hook_findings, layer_message, length_findings, parameter_names,
    places_of_job, places_of_step, repeats, step_names, PlaceView,
};
use crate::text::decimal;

verus! {

/// The place of an entry of a list is the name of the list and the number of the
/// entry in brackets, that of an environment of a step follows that of the step.
pub proof fn places_name_their_list(
    jt: JobTemplate,
    steps: Seq<StepTemplate>,
    definitions: Seq<JobParameterDefinition>,
    i: int,
    j: int,
)
    ensures
        0 <= i < listed(jt.job_environments).len() ==> places_of_job(jt)[i].path == "jobEnvironments"@ + "["@
            + decimal(i as nat) + "]"@ && places_of_job(jt)[i].name == listed(jt.job_environments)[i].name@,
        0 <= i < steps.len() && 0 <= j < listed(steps[i].step_environments).len() ==> places_of_step(
            steps,
            i,
        )[j].path == "steps"@ + "["@ + decimal(i as nat) + "]"@ + ".stepEnvironments"@ + "["@ + decimal(
            j as nat,
        ) + "]"@,
        0 <= i < definitions.len() ==> parameter_names(definitions)[i] == (
            "parameterDefinitions"@ + "["@ + decimal(i as nat) + "]"@,
            definitions[i].name@,
        ),
        0 <= i < steps.len() ==> step_names(steps)[i] == (
            "steps"@ + "["@ + decimal(i as nat) + "]"@,
            steps[i].name@,
        ),
{
}

/// A list of too many entries, a text of too many characters and extensions that
/// lack another are found once, with the limit or the extension that is lacking.
pub proof fn limits_are_named(path: Seq<char>, text: Seq<char>, n: nat, extensions: Set<ModelExtension>)
    ensures
        text.len() > n ==> length_findings(path, text, n) == seq![
            Finding { path, message: "must not be longer than "@ + decimal(n) + " characters"@ },
        ],
        text.len() <= n ==> length_findings(path, text, n).len() == 0,
        text.len() > n ==> count_findings(path, text.len(), n) == seq![
            Finding { path, message: "must not have more than "@ + decimal(n) + " entries"@ },
        ],
        text.len() <= n ==> count_findings(path, text.len(), n).len() == 0,
        extensions.contains(ModelExtension::WrapActions) && !extensions.contains(ModelExtension::Expr)
            ==> extension_findings(extensions) == seq![
            Finding { path: "extensions"@, message: "WRAP_ACTIONS requires EXPR"@ },
        ],
        layer_message() == "at most one environment of a session may define wrap hooks"@,
{
}

/// Hooks without their extension, and hooks without the others, are found at the
/// environment that has them.
pub proof fn hooks_are_found_at_their_environment(place: PlaceView)
    ensures
        place.hooks > 0 ==> hook_findings(place, false) == seq![
            Finding { path: place.path, message: "wrap hooks require the WRAP_ACTIONS extension"@ },
        ],
        0 < place.hooks < 3 ==> hook_findings(place, true) == seq![
            Finding {
                path: place.path,
                message: "onWrapEnvEnter, onWrapTaskRun and onWrapEnvExit must be defined together"@,
            },
        ],
        place.hooks == 0 || place.hooks >= 3 ==> hook_findings(place, true).len() == 0,
        place.hooks == 0 ==> hook_findings(place, false).len() == 0,
{
}

/// A name that occurred before is found where it occurs again, and only there.
pub proof fn repeated_names_are_found_again(named: Seq<(Seq<char>, Seq<char>)>, path: Seq<char>, name: Seq<char>)
    ensures
        repeats(Seq::<(Seq<char>, Seq<char>)>::empty()).len() == 0,
        (exists|i: int| 0 <= i < named.len() && (#[trigger] named[i]).1 == name) ==> repeats(
            named.push((path, name)),
        ) == repeats(named).push(Finding { path, message: "duplicate name: "@ + name }),
        (forall|i: int| 0 <= i < named.len() ==> (#[trigger] named[i]).1 != name) ==> repeats(
            named.push((path, name)),
        ) == repeats(named),
{
    assert(named.push((path, name)).drop_last() =~= named);
    assert(named.push((path, name)).last() == (path, name));
}

} // verus!
