//! Documents of cases and the documents of their results.
//!
//! A document `{"cases": [..]}` states expressions; each result becomes a
//! record of a document `{"results": [..]}`.

use vstd::prelude::*;

use crate::differential::oracle::str_option;
use crate::display::{display_text, error_text, kind_name, render};
use crate::error::{ErrorView, ExpressionError};
use crate::json::{
    in_key_order, json_models, json_text, key_before, lemma_first_characters_decide,
    lemma_json_push, lemma_member_index, member_models, member_of, text_member, JsonMember, JsonObject, JsonValue, JsonView,
};
use crate::json_text::{parse_json, read_json};
use crate::text::{chars_of, text_of};
use crate::types::PathFormat;
use crate::value::{outcome, ExprValue, ValueView};

verus! {

/// A case of a document.
#[derive(Debug, PartialEq, Eq)]
pub struct StatedCase {
    pub id: String,
    pub expr: String,
    pub format: PathFormat,
}

/// The model of a case of a document.
#[verifier::ext_equal]
pub struct StatedView {
    pub id: Seq<char>,
    pub expr: Seq<char>,
    pub format: PathFormat,
}

impl View for StatedCase {
    type V = StatedView;

    open spec fn view(&self) -> StatedView {
        StatedView { id: self.id@, expr: self.expr@, format: self.format }
    }
}

/// The models of cases in sequence.
pub open spec fn stated_models(cases: Seq<StatedCase>) -> Seq<StatedView> {
    Seq::new(cases.len(), |i: int| cases[i]@)
}

/// The path format that a case on the standard input names; that of POSIX
/// where it names none.
pub open spec fn stated_format(name: Option<Seq<char>>) -> Option<PathFormat> {
    match name {
        None => Some(PathFormat::Posix),
        Some(text) => if text == "posix"@ {
            Some(PathFormat::Posix)
        } else if text == "windows"@ {
            Some(PathFormat::Windows)
        } else if text == "uri"@ {
            Some(PathFormat::Uri)
        } else {
            None
        },
    }
}

/// Reads the path format that a case on the standard input names.
pub fn parse_stated_format(name: Option<&str>) -> (r: Option<PathFormat>)
    ensures
        r == stated_format(str_option(name)),
{
    match name {
        None => Some(PathFormat::Posix),
        Some(text) => {
            let text = text.to_owned();
            if text.eq(&"posix".to_owned()) {
                Some(PathFormat::Posix)
            } else if text.eq(&"windows".to_owned()) {
                Some(PathFormat::Windows)
            } else if text.eq(&"uri".to_owned()) {
                Some(PathFormat::Uri)
            } else {
                None
            }
        },
    }
}

/// The case that a value states, or what is wrong with it.
pub open spec fn stated_case(value: JsonView) -> Result<StatedView, Seq<char>> {
    let id = match text_member(value, "id"@) {
        Some(id) => id,
        None => "<no id>"@,
    };
    let name = text_member(value, "path_format"@);
    match (text_member(value, "expr"@), stated_format(name)) {
        (None, _) => Err("case '"@ + id + "' has no 'expr'"@),
        (_, None) => Err("case '"@ + id + "': unknown path_format '"@ + name->0 + "'"@),
        (Some(expr), Some(format)) => Ok(StatedView { id, expr, format }),
    }
}

/// The cases that values state, or what is wrong with the first that states
/// none.
pub open spec fn cases_in_order(values: Seq<JsonView>) -> Result<Seq<StatedView>, Seq<char>>
    decreases values.len(),
{
    if values.len() == 0 {
        Ok(seq![])
    } else {
        match cases_in_order(values.drop_last()) {
            Err(fault) => Err(fault),
            Ok(cases) => match stated_case(values.last()) {
                Err(fault) => Err(fault),
                Ok(case) => Ok(cases.push(case)),
            },
        }
    }
}

/// The cases that a document states, or what is wrong with it.
pub open spec fn stated_cases(document: JsonView) -> Result<Seq<StatedView>, Seq<char>> {
    match member_of(document, "cases"@) {
        Some(JsonView::Array(values)) => cases_in_order(values),
        _ => Err("expected a top-level 'cases' array"@),
    }
}

/// A result of cases over their models.
pub open spec fn cases_outcome(r: Result<Vec<StatedCase>, String>) -> Result<
    Seq<StatedView>,
    Seq<char>,
> {
    match r {
        Ok(cases) => Ok(stated_models(cases@)),
        Err(fault) => Err(fault@),
    }
}

/// Reads the case that a value states.
fn read_case(value: &JsonValue) -> (r: Result<StatedCase, String>)
    ensures
        match r {
            Ok(case) => stated_case(value@) == Ok::<StatedView, Seq<char>>(case@),
            Err(fault) => stated_case(value@) == Err::<StatedView, Seq<char>>(fault@),
        },
{
    let id = match value.get_str("id") {
        Some(id) => id.to_owned(),
        None => "<no id>".to_owned(),
    };
    let expr = match value.get_str("expr") {
        Some(expr) => expr.to_owned(),
        None => {
            let fault = "case '".to_owned().concat(id.as_str()).concat("' has no 'expr'");
            return Err(fault);
        },
    };
    let name = value.get_str("path_format");
    match (parse_stated_format(name), name) {
        (Some(format), _) => Ok(StatedCase { id, expr, format }),
        (None, Some(name)) => {
            let fault = "case '".to_owned().concat(id.as_str()).concat("': unknown path_format '").concat(
                name,
            ).concat("'");
            Err(fault)
        },
        (None, None) => Ok(StatedCase { id, expr, format: PathFormat::Posix }),
    }
}

/// Reads the cases that a document states.
pub fn document_cases(document: &JsonValue) -> (r: Result<Vec<StatedCase>, String>)
    ensures
        cases_outcome(r) == stated_cases(document@),
{
    match document.get("cases") {
        Some(JsonValue::Array(values)) => {
            let ghost models = json_models(values@);
            let mut cases: Vec<StatedCase> = Vec::new();
            let mut i: usize = 0;
            proof {
                assert(models.take(0) =~= seq![]);
                assert(stated_models(cases@) =~= seq![]);
            }
            while i < values.len()
                invariant
                    i <= values@.len(),
                    models == json_models(values@),
                    stated_cases(document@) == cases_in_order(models),
                    cases_in_order(models.take(i as int)) == Ok::<Seq<StatedView>, Seq<char>>(
                        stated_models(cases@),
                    ),
                decreases values@.len() - i,
            {
                proof {
                    assert(models[i as int] == values@[i as int]@);
                    assert(models.take(i + 1).drop_last() =~= models.take(i as int));
                }
                match read_case(&values[i]) {
                    Ok(case) => {
                        proof {
                            assert(stated_models(cases@.push(case)) =~= stated_models(cases@).push(
                                case@,
                            ));
                        }
                        cases.push(case);
                    },
                    Err(fault) => {
                        proof {
                            lemma_first_fault(models, i as int);
                        }
                        return Err(fault);
                    },
                }
                i = i + 1;
            }
            assert(models.take(i as int) =~= models);
            Ok(cases)
        },
        _ => Err("expected a top-level 'cases' array".to_owned()),
    }
}

/// A fault among the first values is the fault of all.
proof fn lemma_first_fault(values: Seq<JsonView>, i: int)
    requires
        0 <= i < values.len(),
        cases_in_order(values.take(i + 1)) is Err,
    ensures
        cases_in_order(values) == cases_in_order(values.take(i + 1)),
    decreases values.len(),
{
    if i + 1 == values.len() {
        assert(values.take(i + 1) =~= values);
    } else {
        assert(values.drop_last().take(i + 1) =~= values.take(i + 1));
        lemma_first_fault(values.drop_last(), i);
    }
}

/// Reads the cases of a document.
pub fn read_cases(input: &str) -> (r: Result<Vec<StatedCase>, String>)
    ensures
        match read_json(input@) {
            None => r matches Err(fault) && exists|reason: Seq<char>|
                fault@ == #[trigger] ("stdin is not valid JSON: "@ + reason),
            Some(document) => cases_outcome(r) == stated_cases(document),
        },
{
    match parse_json(input) {
        Ok(document) => document_cases(&document),
        Err(reason) => Err("stdin is not valid JSON: ".to_owned().concat(reason.as_str())),
    }
}

/// The first line of a text, without its ending: a line feed, or a carriage
/// return and a line feed.
pub open spec fn first_line(text: Seq<char>) -> Seq<char> {
    if text.contains('\n') {
        let line = text.take(text.index_of_first('\n')->0);
        if line.len() > 0 && line.last() == '\r' {
            line.drop_last()
        } else {
            line
        }
    } else {
        text
    }
}

/// Takes the first line of a text.
fn take_first_line(text: &str) -> (r: String)
    ensures
        r@ == first_line(text@),
{
    let chars = chars_of(text);
    let mut end: usize = 0;
    while end < chars.len() && chars[end] != '\n'
        invariant
            end <= chars@.len(),
            chars@ == text@,
            forall|j: int| 0 <= j < end ==> text@[j] != '\n',
        decreases chars@.len() - end,
    {
        end = end + 1;
    }
    if end == chars.len() {
        assert(!text@.contains('\n'));
        return text.to_owned();
    }
    proof {
        assert(text@[end as int] == '\n');
        assert(text@.contains('\n'));
        text@.index_of_first_ensures('\n');
        assert(text@.index_of_first('\n') == Some(end as int));
    }
    if end > 0 && chars[end - 1] == '\r' {
        end = end - 1;
    }
    text_of(&chars, 0, end)
}

/// The record of a result: its rendering and the name of its kind, or the first
/// line of the error.
pub open spec fn result_record(
    id: Seq<char>,
    result: Result<ValueView, ErrorView>,
) -> JsonView {
    match result {
        Ok(value) => JsonView::Object(
            seq![
                ("id"@, JsonView::Text(id)),
                ("ok"@, JsonView::Bool(true)),
                ("type"@, JsonView::Text(kind_name(value))),
                ("value"@, JsonView::Text(display_text(value))),
            ],
        ),
        Err(e) => JsonView::Object(
            seq![
                ("error"@, JsonView::Text(first_line(error_text(e)))),
                ("id"@, JsonView::Text(id)),
                ("ok"@, JsonView::Bool(false)),
                ("type"@, JsonView::Text("error"@)),
            ],
        ),
    }
}

/// The keys of the records stand in order.
proof fn lemma_record_in_order(id: Seq<char>, result: Result<ValueView, ErrorView>)
    ensures
        in_key_order(result_record(id, result)->Object_0),
{
    reveal_strlit("error");
    reveal_strlit("id");
    reveal_strlit("ok");
    reveal_strlit("type");
    reveal_strlit("value");
    let entries = result_record(id, result)->Object_0;
    assert forall|i: int, j: int| 0 <= i < j < entries.len() implies key_before(
        #[trigger] entries[i].0,
        #[trigger] entries[j].0,
    ) by {
        lemma_first_characters_decide(entries[i].0, entries[j].0);
    }
}

fn text_value(key: &str, text: String) -> (r: JsonMember)
    ensures
        r.key@ == key@,
        r.value@ == JsonView::Text(text@),
{
    JsonMember { key: key.to_owned(), value: JsonValue::Text(text) }
}

/// The record of the result of a case.
pub fn case_result(id: &str, result: &Result<ExprValue, ExpressionError>) -> (r: JsonValue)
    ensures
        r@ == result_record(id@, outcome(*result)),
{
    let mut members: Vec<JsonMember> = Vec::new();
    match result {
        Ok(value) => {
            let (rendered, kind) = render(value);
            members.push(text_value("id", id.to_owned()));
            members.push(JsonMember { key: "ok".to_owned(), value: JsonValue::Bool(true) });
            members.push(text_value("type", kind.to_owned()));
            members.push(text_value("value", rendered));
        },
        Err(e) => {
            let message = e.to_string();
            members.push(text_value("error", take_first_line(message.as_str())));
            members.push(text_value("id", id.to_owned()));
            members.push(JsonMember { key: "ok".to_owned(), value: JsonValue::Bool(false) });
            members.push(text_value("type", "error".to_owned()));
        },
    }
    proof {
        lemma_record_in_order(id@, outcome(*result));
        let expected = result_record(id@, outcome(*result))->Object_0;
        assert forall|i: int| 0 <= i < 4 implies member_models(members@)[i] == expected[i] by {
            lemma_member_index(members@, i);
        }
        assert(member_models(members@) =~= expected);
    }
    JsonValue::Object(JsonObject::from_ordered(members))
}

/// The document of records.
pub open spec fn results_view(results: Seq<JsonView>) -> JsonView {
    JsonView::Object(seq![("results"@, JsonView::Array(results))])
}

/// Writes the document of records.
pub fn results_document(results: Vec<JsonValue>) -> (r: String)
    ensures
        r@ == json_text(results_view(json_models(results@))),
{
    let mut members: Vec<JsonMember> = Vec::new();
    let ghost models = json_models(results@);
    members.push(JsonMember { key: "results".to_owned(), value: JsonValue::Array(results) });
    proof {
        lemma_member_index(members@, 0);
        assert(member_models(members@) =~= seq![("results"@, JsonView::Array(models))]);
    }
    JsonValue::Object(JsonObject::from_ordered(members)).to_string()
}

/// The records of the results of cases, in the order of the cases.
pub open spec fn case_records(
    cases: Seq<StatedView>,
    results: Seq<Result<ExprValue, ExpressionError>>,
) -> Seq<JsonView> {
    Seq::new(cases.len(), |i: int| result_record(cases[i].id, outcome(results[i])))
}

/// Writes the document of the results of cases, one for each case.
pub fn answer_document(
    cases: &Vec<StatedCase>,
    results: &Vec<Result<ExprValue, ExpressionError>>,
) -> (r: String)
    requires
        cases@.len() == results@.len(),
    ensures
        r@ == json_text(results_view(case_records(stated_models(cases@), results@))),
{
    let ghost expected = case_records(stated_models(cases@), results@);
    let mut records: Vec<JsonValue> = Vec::new();
    let mut i: usize = 0;
    assert(json_models(records@) =~= expected.take(0));
    while i < cases.len()
        invariant
            i <= cases@.len() == results@.len(),
            expected == case_records(stated_models(cases@), results@),
            json_models(records@) == expected.take(i as int),
        decreases cases@.len() - i,
    {
        let record = case_result(cases[i].id.as_str(), &results[i]);
        proof {
            lemma_json_push(records@, record);
            assert(expected[i as int] == record@);
            assert(expected.take(i + 1) =~= expected.take(i as int).push(record@));
        }
        records.push(record);
        i = i + 1;
    }
    assert(expected.take(i as int) =~= expected);
    results_document(records)
}

} // verus!
