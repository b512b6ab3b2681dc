//! Cases: an expression, what its names mean and how its paths are read.

use vstd::prelude::*;

use crate::differential::oracle::{json_option, str_option};
use crate::json::{JsonObject, JsonValue, JsonView};
use crate::symbol_table::{collision, with_symbol, SymbolTable};
use crate::types::PathFormat;
use crate::value::{text_view, ExprValue, ValueView};

verus! {

/// A case: everything that an evaluation depends on.
#[derive(Debug, PartialEq, Eq)]
pub struct ExprCase {
    pub expr: String,
    /// The values of names: an object of scalars.
    pub symbols: Option<JsonValue>,
    /// `"POSIX"` or `"WINDOWS"`; without one the paths are those of the host.
    pub path_format: Option<String>,
}

/// The model of a case.
#[verifier::ext_equal]
pub struct CaseView {
    pub expr: Seq<char>,
    pub symbols: Option<JsonView>,
    pub path_format: Option<Seq<char>>,
}

/// An optional JSON value over its model.
pub open spec fn optional_json(v: Option<JsonValue>) -> Option<JsonView> {
    match v {
        Some(v) => Some(v@),
        None => None,
    }
}

impl View for ExprCase {
    type V = CaseView;

    open spec fn view(&self) -> CaseView {
        CaseView {
            expr: self.expr@,
            symbols: optional_json(self.symbols),
            path_format: text_view(self.path_format),
        }
    }
}

impl Clone for ExprCase {
    fn clone(&self) -> (r: ExprCase)
        ensures
            r@ == self@,
    {
        ExprCase {
            expr: self.expr.clone(),
            symbols: match &self.symbols {
                Some(v) => Some(v.clone()),
                None => None,
            },
            path_format: match &self.path_format {
                Some(text) => Some(text.clone()),
                None => None,
            },
        }
    }
}

/// The value of a symbol that a JSON value stands for. Only texts, truth values
/// and 64-bit integers stand for one.
pub open spec fn scalar_of(v: JsonView) -> Option<ValueView> {
    match v {
        JsonView::Text(text) => Some(ValueView::Text(text)),
        JsonView::Bool(b) => Some(ValueView::Bool(b)),
        JsonView::Int(i) => Some(ValueView::Int(i)),
        _ => None,
    }
}

fn scalar_value(v: &JsonValue) -> (r: Option<ExprValue>)
    ensures
        match r {
            Some(value) => scalar_of(v@) == Some(value@),
            None => scalar_of(v@) is None,
        },
{
    match v {
        JsonValue::Text(text) => Some(ExprValue::String(text.clone())),
        JsonValue::Bool(b) => Some(ExprValue::Bool(*b)),
        _ => match v.as_i64() {
            Some(i) => Some(ExprValue::Int(i)),
            None => None,
        },
    }
}

/// The symbols of the members of an object, set one after the other. A member
/// that collides with an earlier one is left out.
pub open spec fn symbols_of(entries: Seq<(Seq<char>, JsonView)>) -> Seq<(Seq<char>, ValueView)>
    decreases entries.len(),
{
    if entries.len() == 0 {
        seq![]
    } else {
        let before = symbols_of(entries.drop_last());
        let (name, value) = entries.last();
        match scalar_of(value) {
            Some(v) => if collision(before, name) is None {
                with_symbol(before, name, v)
            } else {
                before
            },
            None => before,
        }
    }
}

/// The symbols that a JSON value stands for.
pub open spec fn environment_of(symbols: Option<JsonView>) -> Seq<(Seq<char>, ValueView)> {
    match symbols {
        Some(JsonView::Object(entries)) => symbols_of(entries),
        _ => seq![],
    }
}

fn set_members(object: &JsonObject) -> (r: SymbolTable)
    ensures
        r@ == symbols_of(object@),
{
    let mut table = SymbolTable::new();
    let mut i: usize = 0;
    assert(object@.take(0) =~= seq![]);
    while i < object.len()
        invariant
            i <= object@.len(),
            table@ == symbols_of(object@.take(i as int)),
        decreases object@.len() - i,
    {
        proof {
            assert(object@.take(i + 1).drop_last() =~= object@.take(i as int));
            assert(object@.take(i + 1).last() == object@[i as int]);
        }
        match scalar_value(object.value_at(i)) {
            Some(value) => {
                let ignored = table.set(object.key_at(i), value);
            },
            None => {},
        }
        i = i + 1;
    }
    assert(object@.take(i as int) =~= object@);
    table
}

/// Builds the table of the symbols of a case.
pub fn build_symbol_table(symbols: Option<&JsonValue>) -> (r: SymbolTable)
    ensures
        r@ == environment_of(json_option(symbols)),
{
    match symbols {
        Some(JsonValue::Object(object)) => set_members(object),
        _ => SymbolTable::new(),
    }
}

/// The path format of a name.
pub open spec fn format_named(name: Option<Seq<char>>) -> Option<PathFormat> {
    match name {
        Some(text) => if text == "POSIX"@ {
            Some(PathFormat::Posix)
        } else if text == "WINDOWS"@ {
            Some(PathFormat::Windows)
        } else {
            None
        },
        None => None,
    }
}

/// The path format in which a case is evaluated: that of the host where the
/// case names none, else the one of the name, and that of POSIX where the name
/// is unknown.
pub open spec fn format_on(name: Option<Seq<char>>, host: PathFormat) -> PathFormat {
    match (name, format_named(name)) {
        (None, _) => host,
        (_, Some(format)) => format,
        _ => PathFormat::Posix,
    }
}

/// A case without a path format is evaluated as the same case that names the
/// path format of the host.
pub proof fn unnamed_formats_are_those_of_the_host(host: PathFormat)
    requires
        host is Posix || host is Windows,
    ensures
        format_on(None, host) == format_on(
            Some(
                if host is Posix {
                    "POSIX"@
                } else {
                    "WINDOWS"@
                },
            ),
            host,
        ),
{
    reveal_strlit("POSIX");
    reveal_strlit("WINDOWS");
    assert("POSIX"@.len() != "WINDOWS"@.len());
}

/// Reads the name of a path format.
pub fn parse_path_format(name: Option<&str>) -> (r: Option<PathFormat>)
    ensures
        r == format_named(str_option(name)),
{
    match name {
        Some(text) => {
            let text = text.to_owned();
            if text.eq(&"POSIX".to_owned()) {
                Some(PathFormat::Posix)
            } else if text.eq(&"WINDOWS".to_owned()) {
                Some(PathFormat::Windows)
            } else {
                None
            }
        },
        None => None,
    }
}

impl ExprCase {
    /// An expression alone.
    pub fn new(expr: String) -> (r: ExprCase)
        ensures
            r@ == (CaseView { expr: expr@, symbols: None, path_format: None }),
    {
        ExprCase { expr, symbols: None, path_format: None }
    }

    /// The case with these symbols.
    pub fn with_symbols(self, symbols: JsonValue) -> (r: ExprCase)
        ensures
            r@ == (CaseView { symbols: Some(symbols@), ..self@ }),
    {
        ExprCase { symbols: Some(symbols), ..self }
    }

    /// The case with this path format.
    pub fn with_path_format(self, path_format: String) -> (r: ExprCase)
        ensures
            r@ == (CaseView { path_format: Some(path_format@), ..self@ }),
    {
        ExprCase { path_format: Some(path_format), ..self }
    }

    /// What the evaluator is given: the symbols, and the path format, which is
    /// that of the host where the case names none and that of POSIX where it
    /// names an unknown one.
    pub fn environment(&self, host: PathFormat) -> (r: (SymbolTable, PathFormat))
        ensures
            r.0@ == environment_of(self@.symbols),
            r.1 == format_on(self@.path_format, host),
            self@.path_format is None ==> r.1 == host,
    {
        let symbols = match &self.symbols {
            Some(v) => Some(v),
            None => None,
        };
        let name = match &self.path_format {
            Some(text) => Some(text.as_str()),
            None => None,
        };
        let format = match (name, parse_path_format(name)) {
            (None, _) => host,
            (_, Some(format)) => format,
            _ => PathFormat::Posix,
        };
        (build_symbol_table(symbols), format)
    }
}

} // verus!
