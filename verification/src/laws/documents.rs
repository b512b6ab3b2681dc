//! What the documents that go to and come from other programs hold.

use vstd::prelude::*;

use crate::differential::adapters::{format_on, scalar_of};
use crate::differential::evaluation::{
    case_records, first_line, result_record, results_view, stated_case, stated_format, StatedView,
};
use crate::differential::oracle::{
    answer_of, category_of, optional_member, request_text, tag_of, AnswerView, RawResponse, ResultView,
};
use crate::display::{display_text, error_text};
use crate::error::{ErrorView, ExpressionError};
use crate::json::{
    entries_text, escaped, escaped_text, json_text, member_of, quoted, text_member, values_text, JsonValue,
    JsonView,
};
use crate::text::integer_value;
use crate::types::{type_text, PathFormat};
use crate::value::{outcome, ExprValue, ValueView};

verus! {

/// The value of a hexadecimal digit in lower case.
pub open spec fn hex_value(c: char) -> int {
    if 48 <= c as int <= 57 {
        c as int - 48
    } else if 97 <= c as int <= 102 {
        c as int - 87
    } else {
        -1
    }
}

/// Whether characters stand for one character in a JSON string: they are that
/// character, a backslash and a letter for it, or a backslash, a `u` and the
/// four hexadecimal digits of its code.
pub open spec fn stands_for(escape: Seq<char>, c: char) -> bool {
    ||| escape.len() == 1 && escape[0] == c && c as int >= 32 && c != '"' && c != '\\'
    ||| escape.len() == 2 && escape[0] == '\\' && {
        ||| escape[1] == '"' && c == '"'
        ||| escape[1] == '\\' && c == '\\'
        ||| escape[1] == 'n' && c as int == 10
        ||| escape[1] == 'r' && c as int == 13
        ||| escape[1] == 't' && c as int == 9
        ||| escape[1] == 'b' && c as int == 8
        ||| escape[1] == 'f' && c as int == 12
    }
    ||| escape.len() == 6 && escape[0] == '\\' && escape[1] == 'u' && hex_value(escape[2]) >= 0
        && hex_value(escape[3]) >= 0 && hex_value(escape[4]) >= 0 && hex_value(escape[5]) >= 0 && c as int
        == 4096 * hex_value(escape[2]) + 256 * hex_value(escape[3]) + 16 * hex_value(escape[4]) + hex_value(
        escape[5],
    )
}

/// Each character of a JSON string is written by characters that stand for it,
/// one after the other, and only where it must be by more than itself.
pub proof fn strings_are_escaped(text: Seq<char>, c: char)
    ensures
        stands_for(escaped(c), c),
        c as int >= 32 && c != '"' && c != '\\' ==> escaped(c) == seq![c],
        escaped_text(Seq::<char>::empty()) == Seq::<char>::empty(),
        escaped_text(text.push(c)) == escaped_text(text) + escaped(c),
        quoted(text) == seq!['"'] + escaped_text(text) + seq!['"'],
{
    assert(text.push(c).drop_last() =~= text);
}

/// A value of JSON holds what it was made of, an unsigned integer as the signed
/// one of its value where that fits, and an array its elements in order.
pub proof fn values_hold_what_they_are_made_of(value: JsonValue, i: int)
    ensures
        match value {
            JsonValue::Null => value@ == JsonView::Null,
            JsonValue::Bool(b) => value@ == JsonView::Bool(b),
            JsonValue::Int(n) => value@ == JsonView::Int(n as int),
            JsonValue::Unsigned(u) => if u <= 0x7FFF_FFFF_FFFF_FFFF {
                value@ == JsonView::Int(u as int)
            } else {
                value@ == JsonView::Unsigned(u as nat)
            },
            JsonValue::Float(f) => value@ == JsonView::Float(f@),
            JsonValue::Text(text) => value@ == JsonView::Text(text@),
            JsonValue::Array(values) => value@ matches JsonView::Array(elements) && elements.len()
                == values@.len() && (0 <= i < values@.len() ==> elements[i] == values@[i]@),
            JsonValue::Object(object) => value@ == JsonView::Object(object@),
        },
{
}

/// The JSON texts of scalars are their names, their digits and quoted strings.
pub proof fn scalars_are_written_plainly(b: bool, i: int, text: Seq<char>)
    ensures
        json_text(JsonView::Null) == "null"@,
        json_text(JsonView::Bool(b)) == (if b {
            "true"@
        } else {
            "false"@
        }),
        integer_value(json_text(JsonView::Int(i))) == Some(i),
        json_text(JsonView::Text(text)) == quoted(text),
{
    crate::text::integers_read_back(i);
}

/// An array is written in brackets and an object in braces, their elements in
/// order and between commas, a member as its key, a colon and its value.
pub proof fn containers_are_written_in_order(
    values: Seq<JsonView>,
    entries: Seq<(Seq<char>, JsonView)>,
    key: Seq<char>,
    v: JsonView,
)
    ensures
        json_text(JsonView::Array(values)) == seq!['['] + values_text(values) + seq![']'],
        json_text(JsonView::Object(entries)) == seq!['{'] + entries_text(entries) + seq!['}'],
        values.len() == 0 ==> values_text(values) == Seq::<char>::empty() && values_text(values.push(v))
            == json_text(v),
        values.len() > 0 ==> values_text(values.push(v)) == values_text(values) + seq![','] + json_text(v),
        entries.len() == 0 ==> entries_text(entries) == Seq::<char>::empty() && entries_text(
            entries.push((key, v)),
        ) == quoted(key) + seq![':'] + json_text(v),
        entries.len() > 0 ==> entries_text(entries.push((key, v))) == entries_text(entries) + seq![',']
            + quoted(key) + seq![':'] + json_text(v),
{
    assert(values.push(v).drop_last() =~= values);
    assert(entries.push((key, v)).drop_last() =~= entries);
    assert(values.push(v).last() == v);
    assert(entries.push((key, v)).last() == (key, v));
    assert(values_text(values).push(',') =~= values_text(values) + seq![',']);
    assert(quoted(key).push(':') =~= quoted(key) + seq![':']);
    if entries.len() > 0 {
        assert(entries_text(entries.push((key, v))) =~= entries_text(entries) + seq![','] + quoted(key)
            + seq![':'] + json_text(v));
    }
}

/// The first line of a text holds no line break, and the text is that line
/// alone or goes on with a line break after it, before which a carriage return
/// may stand.
pub proof fn first_lines_end_at_the_first_break(text: Seq<char>)
    ensures
        ({
            let line = first_line(text);
            let n = line.len() as int;
            &&& forall|i: int| 0 <= i < n ==> #[trigger] line[i] != '\n'
            &&& n <= text.len()
            &&& line == text.take(n)
            &&& n == text.len() || text[n] == '\n' && (n == 0 || text[n - 1] != '\r') || n + 1 < text.len()
                && text[n] == '\r' && text[n + 1] == '\n'
        }),
{
    if text.contains('\n') {
        text.index_of_first_ensures('\n');
        let at = text.index_of_first('\n')->0;
        let line = text.take(at);
        if at > 0 && text[at - 1] == '\r' {
            assert(line.last() == '\r');
            assert(line.drop_last() =~= text.take(at - 1));
        }
        assert forall|i: int| 0 <= i < at implies #[trigger] text[i] != '\n' by {}
    } else {
        assert(text.take(text.len() as int) =~= text);
        assert forall|i: int| 0 <= i < text.len() implies #[trigger] text[i] != '\n' by {
            assert(text.contains(text[i]));
        }
    }
}

/// Whether texts of other lengths or first characters differ.
proof fn lemma_member_names()
    ensures
        "id"@ != "ok"@ && "id"@ != "type"@ && "id"@ != "value"@ && "id"@ != "error"@ && "ok"@ != "type"@
            && "ok"@ != "value"@ && "ok"@ != "error"@ && "type"@ != "value"@ && "type"@ != "error"@
            && "value"@ != "error"@,
{
    reveal_strlit("id");
    reveal_strlit("ok");
    reveal_strlit("type");
    reveal_strlit("value");
    reveal_strlit("error");
    assert("id"@[0] == 'i' && "ok"@[0] == 'o' && "type"@[0] == 't' && "value"@[0] == 'v' && "error"@[0]
        == 'e');
}

/// The record of a result names its case and tells whether there is a value: if
/// so its text and its kind, and if not the first line of the error and no value.
pub proof fn records_hold_their_results(id: Seq<char>, result: Result<ValueView, ErrorView>)
    ensures
        ({
            let record = result_record(id, result);
            &&& member_of(record, "id"@) == Some(JsonView::Text(id))
            &&& member_of(record, "ok"@) == Some(JsonView::Bool(result is Ok))
            &&& match result {
                Ok(v) => member_of(record, "value"@) == Some(JsonView::Text(display_text(v))) && member_of(
                    record,
                    "error"@,
                ) is None && member_of(record, "type"@) == Some(
                    JsonView::Text(
                        match v {
                            ValueView::Null => "null"@,
                            ValueView::Bool(_) => "bool"@,
                            ValueView::Int(_) => "int"@,
                            ValueView::Float { .. } => "float"@,
                            ValueView::Text(_) => "string"@,
                            ValueView::Path { .. } => "path"@,
                            ValueView::Range(_) => "list"@,
                            ValueView::List { .. } => "list"@,
                        },
                    ),
                ),
                Err(e) => member_of(record, "error"@) == Some(
                    JsonView::Text(first_line(error_text(e))),
                ) && member_of(record, "value"@) is None && member_of(record, "type"@) == Some(
                    JsonView::Text("error"@),
                ),
            }
        }),
{
    lemma_member_names();
    reveal_with_fuel(crate::assoc::lookup, 6);
}

/// The document of results holds the records of the cases in their order.
pub proof fn results_keep_their_order(
    cases: Seq<StatedView>,
    results: Seq<Result<ExprValue, ExpressionError>>,
    i: int,
)
    requires
        0 <= i < cases.len() == results.len(),
    ensures
        member_of(results_view(case_records(cases, results)), "results"@) matches Some(
            JsonView::Array(records),
        ) && records.len() == cases.len() && records[i] == result_record(cases[i].id, outcome(results[i])),
{
    reveal_with_fuel(crate::assoc::lookup, 2);
}

/// A case without a path format has POSIX paths, and one with a name has those
/// of that name or is refused. A case without an expression is refused.
pub proof fn cases_are_read_by_their_members(value: JsonView, name: Seq<char>)
    ensures
        stated_format(None) == Some(PathFormat::Posix),
        stated_format(Some("posix"@)) == Some(PathFormat::Posix),
        stated_format(Some("windows"@)) == Some(PathFormat::Windows),
        stated_format(Some("uri"@)) == Some(PathFormat::Uri),
        name != "posix"@ && name != "windows"@ && name != "uri"@ ==> stated_format(Some(name)) is None,
        stated_case(value) is Ok <==> text_member(value, "expr"@) is Some && stated_format(
            text_member(value, "path_format"@),
        ) is Some,
        stated_case(value) matches Ok(case) ==> {
            &&& text_member(value, "expr"@) == Some(case.expr)
            &&& stated_format(text_member(value, "path_format"@)) == Some(case.format)
            &&& text_member(value, "id"@) matches Some(id) ==> case.id == id
        },
{
    reveal_strlit("posix");
    reveal_strlit("windows");
    reveal_strlit("uri");
    assert("posix"@[0] == 'p' && "windows"@[0] == 'w' && "uri"@[0] == 'u');
}

/// A case that names no format has the paths of the host; one that names POSIX
/// or Windows has theirs, and one that names anything else has POSIX paths.
pub proof fn case_formats_follow_their_names(name: Seq<char>, host: PathFormat)
    ensures
        format_on(None, host) == host,
        format_on(Some("WINDOWS"@), host) == PathFormat::Windows,
        name != "WINDOWS"@ ==> format_on(Some(name), host) == PathFormat::Posix,
{
    reveal_strlit("POSIX");
    reveal_strlit("WINDOWS");
    assert("POSIX"@[0] == 'P' && "WINDOWS"@[0] == 'W');
}

/// Texts, truth values and integers of JSON are values of the same content, and
/// nothing else of JSON is the value of a symbol.
pub proof fn symbols_are_scalars(v: JsonView)
    ensures
        match v {
            JsonView::Text(text) => scalar_of(v) == Some(ValueView::Text(text)),
            JsonView::Bool(b) => scalar_of(v) == Some(ValueView::Bool(b)),
            JsonView::Int(i) => scalar_of(v) == Some(ValueView::Int(i)),
            _ => scalar_of(v) is None,
        },
{
}

/// A failure of the reference itself counts before a value, and a value before
/// an error. An answer with none of them is a failure of the reference.
pub proof fn answers_are_read_in_order(raw: RawResponse)
    ensures
        raw.internal_error matches Some(message) ==> answer_of(raw) == AnswerView::Internal(message@),
        raw.internal_error is None ==> (raw.ok matches Some(tag) ==> answer_of(raw) == AnswerView::Result(
            ResultView::Value(tag@),
        )),
        raw.internal_error is None && raw.ok is None ==> (raw.err matches Some(category) ==> answer_of(raw)
            == AnswerView::Result(ResultView::Error(category@))),
        raw.internal_error is None && raw.ok is None && raw.err is None ==> answer_of(raw) is Internal,
{
}

/// A value is tagged with the name of its type, that of a list with the name of
/// the type of its elements in brackets. What is no list is handed over as the
/// text that it is shown as.
pub proof fn values_are_tagged_with_their_types(v: ValueView)
    ensures
        match v {
            ValueView::Null => tag_of(v).type_str == "nulltype"@,
            ValueView::Bool(_) => tag_of(v).type_str == "bool"@,
            ValueView::Int(_) => tag_of(v).type_str == "int"@,
            ValueView::Float { .. } => tag_of(v).type_str == "float"@,
            ValueView::Text(_) => tag_of(v).type_str == "string"@,
            ValueView::Path { .. } => tag_of(v).type_str == "path"@,
            ValueView::Range(_) => tag_of(v).type_str == "range_expr"@,
            ValueView::List { elements: _, elem_type } => tag_of(v).type_str == "list["@
                + type_text(elem_type) + "]"@,
        },
        !(v is List) ==> tag_of(v).value == JsonView::Text(display_text(v)),
        v matches ValueView::Int(i) ==> (tag_of(v).value matches JsonView::Text(text) && integer_value(text)
            == Some(i)),
        v matches ValueView::Text(t) ==> tag_of(v).value == JsonView::Text(t),
{
    if let ValueView::Int(i) = v {
        crate::text::integers_read_back(i);
    }
}

/// Errors are told apart by what they are about, those of syntax together and
/// those of types together.
pub proof fn errors_have_their_categories(e: ErrorView)
    ensures
        e is IntegerOverflow ==> category_of(e) == "overflow"@,
        e is DivisionByZero ==> category_of(e) == "division_by_zero"@,
        e is UndefinedVariable ==> category_of(e) == "undefined_symbol"@,
        e is ParseError || e is UnsupportedSyntax ==> category_of(e) == "parse"@,
        e is IndexOutOfBounds ==> category_of(e) == "index"@,
        e is TypeError || e is UnknownFunction ==> category_of(e) == "type"@,
        e is FloatError || e is OperationLimitExceeded || e is MemoryLimitExceeded || e is Other
            ==> category_of(e) == "other"@,
{
}

/// A request is a JSON object of the expression, of the symbols where there are
/// any, and of the path format where one is named.
pub proof fn requests_are_json(
    expr: Seq<char>,
    symbols: Option<JsonView>,
    path_format: Option<Seq<char>>,
)
    ensures
        ({
            let first = seq![("expr"@, JsonView::Text(expr))];
            let second = match symbols {
                Some(v) => first.push(("symbols"@, v)),
                None => first,
            };
            let third = match path_format {
                Some(text) => second.push(("path_format"@, JsonView::Text(text))),
                None => second,
            };
            request_text(expr, symbols, path_format) == json_text(JsonView::Object(third))
        }),
{
    let first = seq![("expr"@, JsonView::Text(expr))];
    assert(entries_text(first) == seq!['"'] + "expr"@ + seq!['"', ':'] + quoted(expr)) by {
        lemma_first_member(expr);
    }
    let (second, symbols_part) = match symbols {
        Some(v) => {
            lemma_next_member(first, "symbols"@, v);
            (first.push(("symbols"@, v)), optional_member("symbols"@, Some(json_text(v))))
        },
        None => (first, Seq::<char>::empty()),
    };
    assert(entries_text(second) =~= entries_text(first) + symbols_part);
    let (third, format_part) = match path_format {
        Some(text) => {
            lemma_next_member(second, "path_format"@, JsonView::Text(text));
            (
                second.push(("path_format"@, JsonView::Text(text))),
                optional_member("path_format"@, Some(quoted(text))),
            )
        },
        None => (second, Seq::<char>::empty()),
    };
    assert(entries_text(third) =~= entries_text(second) + format_part);
    lemma_request(expr, symbols_part, format_part);
    assert(request_text(expr, symbols, path_format) == "{\"expr\":"@ + quoted(expr) + symbols_part
        + format_part + "}"@);
}

proof fn lemma_request(expr: Seq<char>, a: Seq<char>, b: Seq<char>)
    ensures
        "{\"expr\":"@ + quoted(expr) + a + b + "}"@ == seq!['{'] + (seq!['"'] + "expr"@ + seq!['"', ':']
            + quoted(expr) + a + b) + seq!['}'],
{
    reveal_strlit("{\"expr\":");
    reveal_strlit("expr");
    reveal_strlit("}");
    assert("{\"expr\":"@ =~= seq!['{', '"'] + "expr"@ + seq!['"', ':']);
    assert("{\"expr\":"@ + quoted(expr) + a + b + "}"@ =~= seq!['{'] + (seq!['"'] + "expr"@ + seq!['"', ':']
        + quoted(expr) + a + b) + seq!['}']);
}

proof fn lemma_first_member(expr: Seq<char>)
    ensures
        entries_text(seq![("expr"@, JsonView::Text(expr))]) == seq!['"'] + "expr"@ + seq!['"', ':']
            + quoted(expr),
{
    reveal_strlit("expr");
    lemma_plain("expr"@);
    let none = Seq::<(Seq<char>, JsonView)>::empty();
    assert(none.push(("expr"@, JsonView::Text(expr))) =~= seq![("expr"@, JsonView::Text(expr))]);
    containers_are_written_in_order(seq![], none, "expr"@, JsonView::Text(expr));
    assert(quoted("expr"@) + seq![':'] + quoted(expr) =~= seq!['"'] + "expr"@ + seq!['"', ':'] + quoted(
        expr,
    ));
}

proof fn lemma_next_member(entries: Seq<(Seq<char>, JsonView)>, key: Seq<char>, v: JsonView)
    requires
        entries.len() > 0,
        key == "symbols"@ || key == "path_format"@,
    ensures
        entries_text(entries.push((key, v))) == entries_text(entries) + optional_member(
            key,
            Some(json_text(v)),
        ),
{
    reveal_strlit("symbols");
    reveal_strlit("path_format");
    reveal_strlit(",\"");
    reveal_strlit("\":");
    lemma_plain(key);
    containers_are_written_in_order(seq![], entries, key, v);
    assert(entries_text(entries) + seq![','] + quoted(key) + seq![':'] + json_text(v) =~= entries_text(
        entries,
    ) + (",\""@ + key + "\":"@ + json_text(v)));
}

/// Text without characters that are escaped.
proof fn lemma_plain(text: Seq<char>)
    requires
        forall|i: int|
            0 <= i < text.len() ==> (#[trigger] text[i]) as int >= 32 && text[i] != '"' && text[i] != '\\',
    ensures
        escaped_text(text) == text,
    decreases text.len(),
{
    if text.len() > 0 {
        let rest = text.drop_last();
        assert forall|i: int| 0 <= i < rest.len() implies (#[trigger] rest[i]) as int >= 32 && rest[i] != '"'
            && rest[i] != '\\' by {
            assert(rest[i] == text[i]);
        }
        lemma_plain(rest);
        let last = text[text.len() - 1];
        strings_are_escaped(rest, last);
        assert(rest.push(last) =~= text);
        assert(rest + seq![last] =~= text);
    }
}

} // verus!
