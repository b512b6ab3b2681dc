//! What is wrong with a template.

use vstd::prelude::*;

verus! {

/// One thing that is wrong, and the place of it.
#[derive(Debug, PartialEq, Eq)]
pub struct ValidationError {
    pub path: String,
    pub message: String,
}

/// An error over the texts.
pub struct Finding {
    pub path: Seq<char>,
    pub message: Seq<char>,
}

impl View for ValidationError {
    type V = Finding;

    open spec fn view(&self) -> Finding {
        Finding { path: self.path@, message: self.message@ }
    }
}

/// The errors over the texts.
pub open spec fn findings(errors: Seq<ValidationError>) -> Seq<Finding> {
    errors.map_values(|e: ValidationError| e@)
}

/// Why a template is refused.
#[derive(Debug, PartialEq, Eq)]
pub enum ModelError {
    /// Everything that is wrong with it.
    ModelValidation(Vec<ValidationError>),
}

/// What is wrong according to the outcome of a validation.
pub open spec fn validation_outcome(r: Result<(), ModelError>) -> Seq<Finding> {
    match r {
        Ok(_) => seq![],
        Err(ModelError::ModelValidation(errors)) => findings(errors@),
    }
}

/// Adds an error.
pub fn report(errors: &mut Vec<ValidationError>, path: String, message: String)
    ensures
        findings(final(errors)@) == findings(old(errors)@).push(
            Finding { path: path@, message: message@ },
        ),
{
    errors.push(ValidationError { path, message });
    assert(findings(errors@) =~= findings(old(errors)@).push(
        Finding { path: path@, message: message@ },
    ));
}

} // verus!
