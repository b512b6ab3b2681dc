//! Documents of cases and of results.

use openjd::differential::evaluation::{
    answer_document, case_result, document_cases, parse_stated_format, read_cases,
    results_document, StatedCase,
};
use openjd::error::{ExpressionError, ExpressionErrorKind};
use openjd::json_text::parse_json;
use openjd::types::{ExprType, PathFormat};
use openjd::value::ExprValue;

fn fault(input: &str) -> String {
    read_cases(input).unwrap_err()
}

fn failure(kind: ExpressionErrorKind) -> Result<ExprValue, ExpressionError> {
    Err(ExpressionError { kind })
}

#[test]
fn cases_are_read_from_their_document() {
    let cases = read_cases(
        "{\"cases\": [{\"id\": \"x\", \"expr\": \"1+1\"}, \
         {\"expr\": \"p\", \"path_format\": \"windows\"}, \
         {\"id\": 3, \"expr\": \"q\", \"path_format\": null}, \
         {\"id\": \"u\", \"expr\": \"\", \"path_format\": \"uri\", \"more\": []}]}",
    )
    .unwrap();
    let stated = |id: &str, expr: &str, format: PathFormat| StatedCase {
        id: id.into(),
        expr: expr.into(),
        format,
    };
    assert_eq!(
        cases,
        vec![
            stated("x", "1+1", PathFormat::Posix),
            stated("<no id>", "p", PathFormat::Windows),
            stated("<no id>", "q", PathFormat::Posix),
            stated("u", "", PathFormat::Uri),
        ]
    );
    assert_eq!(read_cases("{\"cases\":[]}"), Ok(vec![]));
}

#[test]
fn faults_of_documents_are_told() {
    let reason = serde_json::from_str::<serde_json::Value>("{").unwrap_err();
    assert_eq!(fault("{"), format!("stdin is not valid JSON: {reason}"));
    for input in ["null", "[]", "{}", "{\"cases\":{}}", "{\"cases\":\"x\"}"] {
        assert_eq!(fault(input), "expected a top-level 'cases' array");
    }
    assert_eq!(fault("{\"cases\":[{\"id\":\"a\"}]}"), "case 'a' has no 'expr'");
    assert_eq!(fault("{\"cases\":[{\"expr\":1}]}"), "case '<no id>' has no 'expr'");
    assert_eq!(fault("{\"cases\":[7]}"), "case '<no id>' has no 'expr'");
    assert_eq!(
        fault("{\"cases\":[{\"id\":\"a\",\"expr\":\"1\",\"path_format\":\"POSIX\"}]}"),
        "case 'a': unknown path_format 'POSIX'"
    );
    // The first fault is the one that is told.
    assert_eq!(
        fault(
            "{\"cases\":[{\"id\":\"a\",\"expr\":\"1\"},{\"id\":\"b\",\"path_format\":\"x\"},\
             {\"id\":\"c\",\"expr\":\"1\",\"path_format\":\"x\"}]}"
        ),
        "case 'b' has no 'expr'"
    );
    let document = parse_json("{\"cases\":[{\"expr\":\"1\"}]}").unwrap();
    assert_eq!(document_cases(&document).unwrap().len(), 1);
}

#[test]
fn stated_formats_are_read() {
    assert_eq!(parse_stated_format(None), Some(PathFormat::Posix));
    assert_eq!(parse_stated_format(Some("posix")), Some(PathFormat::Posix));
    assert_eq!(parse_stated_format(Some("uri")), Some(PathFormat::Uri));
    assert_eq!(parse_stated_format(Some("windows")), Some(PathFormat::Windows));
    assert_eq!(parse_stated_format(Some("WINDOWS")), None);
}

#[test]
fn results_are_recorded() {
    let record = |result: Result<ExprValue, ExpressionError>| case_result("x", &result).to_string();
    assert_eq!(
        record(Ok(ExprValue::Int(2))),
        "{\"id\":\"x\",\"ok\":true,\"type\":\"int\",\"value\":\"2\"}"
    );
    assert_eq!(
        record(Ok(ExprValue::List {
            elements: vec![ExprValue::Int(1), ExprValue::Int(2)],
            elem_type: ExprType::Int,
        })),
        "{\"id\":\"x\",\"ok\":true,\"type\":\"list\",\"value\":\"[1, 2]\"}"
    );
    assert_eq!(
        record(failure(ExpressionErrorKind::IntegerOverflow)),
        "{\"error\":\"Integer overflow\",\"id\":\"x\",\"ok\":false,\"type\":\"error\"}"
    );
}

#[test]
fn errors_are_recorded_by_their_first_line() {
    for message in ["", "a", "a\nb", "a\r\nb\nc", "a\r\r\nb", "\na", "\r\n", "a\r", "a\rb", "é\n^"] {
        let result = failure(ExpressionErrorKind::Other { message: message.into() });
        let record = case_result("x", &result);
        assert_eq!(record.get_str("error"), Some(message.lines().next().unwrap_or("")), "{message:?}");
    }
}

#[test]
fn records_make_a_document() {
    assert_eq!(results_document(vec![]), "{\"results\":[]}");
    let records = vec![
        case_result("a", &Ok(ExprValue::Bool(true))),
        case_result("b", &failure(ExpressionErrorKind::TypeError { message: "t\nu".into() })),
    ];
    assert_eq!(
        results_document(records),
        "{\"results\":[{\"id\":\"a\",\"ok\":true,\"type\":\"bool\",\"value\":\"true\"},\
         {\"error\":\"t\",\"id\":\"b\",\"ok\":false,\"type\":\"error\"}]}"
    );
}

#[test]
fn answers_follow_their_cases() {
    let cases = read_cases("{\"cases\":[{\"id\":\"q\",\"expr\":\"1+1\"},{\"expr\":\"1/0\"}]}").unwrap();
    let results = vec![
        Ok(ExprValue::Int(2)),
        failure(ExpressionErrorKind::DivisionByZero { operation: "Division".into() }),
    ];
    assert_eq!(
        answer_document(&cases, &results),
        "{\"results\":[{\"id\":\"q\",\"ok\":true,\"type\":\"int\",\"value\":\"2\"},\
         {\"error\":\"Division by zero\",\"id\":\"<no id>\",\"ok\":false,\"type\":\"error\"}]}"
    );
}
