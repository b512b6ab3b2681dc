//! Which cases are run and with which symbols.

use vstd::prelude::*;

use crate::assoc::lookup;
use crate::differential::adapters::{environment_of, symbols_of};
use crate::differential::evaluation::{cases_in_order, stated_case, stated_cases, StatedView};
use crate::differential::generator::{
    atom_from, call_from, can_be_drawn, edge, expr_from, path_choice, string_choice,
};
use crate::json::{member_of, JsonView};
use crate::laws::symbols::{collisions_are_with_scopes, overlaps, symbols_read_back};
use crate::text::int_text;
use crate::value::ValueView;

verus! {

/// Whether no two names are the same or overlap.
pub open spec fn names_are_apart(entries: Seq<(Seq<char>, JsonView)>) -> bool {
    forall|i: int, j: int|
        0 <= i < entries.len() && 0 <= j < entries.len() && i != j ==> (#[trigger] entries[i]).0 != (
        #[trigger] entries[j]).0 && !overlaps(entries[i].0, entries[j].0)
}

/// The value of JSON that a symbol can have.
pub open spec fn symbol_value(v: JsonView) -> Option<ValueView> {
    if v is Text {
        Some(ValueView::Text(v->Text_0))
    } else if v is Bool {
        Some(ValueView::Bool(v->Bool_0))
    } else if v is Int {
        Some(ValueView::Int(v->Int_0))
    } else {
        None
    }
}

/// Symbols come from the members alone.
proof fn lemma_symbols_are_members(entries: Seq<(Seq<char>, JsonView)>, i: int)
    requires
        0 <= i < symbols_of(entries).len(),
    ensures
        exists|j: int| 0 <= j < entries.len() && (#[trigger] entries[j]).0 == symbols_of(entries)[i].0,
    decreases entries.len(),
{
    if entries.len() > 0 {
        let rest = entries.drop_last();
        let (name, value) = entries.last();
        let before = symbols_of(rest);
        assert(entries[entries.len() - 1] == entries.last());
        match crate::differential::adapters::scalar_of(value) {
            Some(v) if crate::symbol_table::collision(before, name) is None => {
                lemma_set_names(before, name, v, i);
                if symbols_of(entries)[i].0 != name {
                    let k = choose|k: int|
                        0 <= k < before.len() && (#[trigger] before[k]).0 == symbols_of(entries)[i].0;
                    lemma_symbols_are_members(rest, k);
                    let j = choose|j: int| 0 <= j < rest.len() && (#[trigger] rest[j]).0 == before[k].0;
                    assert(entries[j] == rest[j]);
                }
            },
            _ => {
                lemma_symbols_are_members(rest, i);
                let j = choose|j: int| 0 <= j < rest.len() && (#[trigger] rest[j]).0 == before[i].0;
                assert(entries[j] == rest[j]);
            },
        }
    }
}

proof fn lemma_set_names(symbols: Seq<(Seq<char>, ValueView)>, name: Seq<char>, v: ValueView, i: int)
    requires
        0 <= i < crate::symbol_table::with_symbol(symbols, name, v).len(),
    ensures
        ({
            let after = crate::symbol_table::with_symbol(symbols, name, v);
            after[i].0 == name || exists|k: int| 0 <= k < symbols.len() && (#[trigger] symbols[k]).0 == after[i].0
        }),
    decreases symbols.len(),
{
    let after = crate::symbol_table::with_symbol(symbols, name, v);
    if symbols.len() > 0 {
        if symbols[0].0 == name {
            if i > 0 {
                assert(symbols[i].0 == after[i].0);
            }
        } else if i == 0 {
            assert(symbols[0].0 == after[0].0);
        } else {
            let rest = symbols.skip(1);
            lemma_set_names(rest, name, v, i - 1);
            let inner = crate::symbol_table::with_symbol(rest, name, v);
            assert(after[i] == inner[i - 1]);
            if after[i].0 != name {
                let k = choose|k: int| 0 <= k < rest.len() && (#[trigger] rest[k]).0 == inner[i - 1].0;
                assert(symbols[k + 1].0 == after[i].0);
            }
        }
    }
}

/// Members of an object that do not overlap are symbols of the same names: those
/// that are texts, truth values or integers with that value, the others with
/// none.
pub proof fn members_become_symbols(entries: Seq<(Seq<char>, JsonView)>, i: int)
    requires
        names_are_apart(entries),
        0 <= i < entries.len(),
    ensures
        lookup(symbols_of(entries), entries[i].0) == symbol_value(entries[i].1),
        environment_of(Some(JsonView::Object(entries))) == symbols_of(entries),
        environment_of(None) == Seq::<(Seq<char>, ValueView)>::empty(),
    decreases entries.len(),
{
    let rest = entries.drop_last();
    let (name, value) = entries.last();
    let before = symbols_of(rest);
    assert(entries[entries.len() - 1] == entries.last());
    assert forall|a: int, b: int| 0 <= a < rest.len() && 0 <= b < rest.len() && a != b implies (
    #[trigger] rest[a]).0 != (#[trigger] rest[b]).0 && !overlaps(rest[a].0, rest[b].0) by {
        assert(rest[a] == entries[a] && rest[b] == entries[b]);
    }
    assert forall|k: int| 0 <= k < before.len() implies !overlaps((#[trigger] before[k]).0, name)
        && before[k].0 != name by {
        lemma_symbols_are_members(rest, k);
        let j = choose|j: int| 0 <= j < rest.len() && (#[trigger] rest[j]).0 == before[k].0;
        assert(entries[j] == rest[j]);
        assert(entries[j].0 != entries[entries.len() - 1].0 && !overlaps(
            entries[j].0,
            entries[entries.len() - 1].0,
        ));
    }
    collisions_are_with_scopes(before, name);
    assert(crate::symbol_table::collision(before, name) is None);
    crate::assoc::lemma_key_missing(before, name);
    if i == entries.len() - 1 {
        if symbol_value(value) is Some {
            symbols_read_back(before, name, symbol_value(value)->0, name);
        }
    } else {
        members_become_symbols(rest, i);
        assert(rest[i] == entries[i]);
        if symbol_value(value) is Some {
            symbols_read_back(before, name, symbol_value(value)->0, entries[i].0);
        }
    }
}

/// The cases of a document are those of its array, one for each and in order.
/// The first that is refused is the error of the document.
pub proof fn cases_keep_their_order(values: Seq<JsonView>, i: int)
    requires
        0 <= i < values.len(),
    ensures
        match cases_in_order(values) {
            Ok(cases) => cases.len() == values.len() && stated_case(values[i]) == Ok::<
                StatedView,
                Seq<char>,
            >(cases[i]),
            Err(fault) => exists|k: int|
                0 <= k < values.len() && stated_case(#[trigger] values[k]) == Err::<StatedView, Seq<char>>(
                    fault,
                ) && forall|j: int| 0 <= j < k ==> stated_case(#[trigger] values[j]) is Ok,
        },
    decreases values.len(),
{
    let rest = values.drop_last();
    assert(values[values.len() - 1] == values.last());
    if rest.len() > 0 {
        let at = if i < rest.len() {
            i
        } else {
            0
        };
        cases_keep_their_order(rest, at);
    }
    match cases_in_order(rest) {
        Ok(cases) => {
            assert forall|j: int| 0 <= j < rest.len() implies stated_case(#[trigger] values[j]) is Ok by {
                cases_keep_their_order(rest, j);
                assert(rest[j] == values[j]);
            }
            assert(rest.len() == 0 ==> cases.len() == 0);
            if i < rest.len() {
                assert(rest[i] == values[i]);
            }
        },
        Err(fault) => {
            let k = choose|k: int|
                0 <= k < rest.len() && stated_case(#[trigger] rest[k]) == Err::<StatedView, Seq<char>>(fault)
                    && forall|j: int| 0 <= j < k ==> stated_case(#[trigger] rest[j]) is Ok;
            assert(values[k] == rest[k]);
            assert forall|j: int| 0 <= j < k implies stated_case(#[trigger] values[j]) is Ok by {
                assert(rest[j] == values[j]);
            }
        },
    }
}

/// A document without an array of cases is refused.
pub proof fn documents_hold_cases(document: JsonView)
    ensures
        !(member_of(document, "cases"@) matches Some(JsonView::Array(_))) ==> stated_cases(document) is Err,
        member_of(document, "cases"@) matches Some(JsonView::Array(values)) ==> stated_cases(document)
            == cases_in_order(values),
{
}

/// A random draw lies in its bounds. A replayed one is the number that was
/// recorded at its place where that lies in the bounds, and the lower bound
/// otherwise.
pub proof fn draws_lie_in_their_bounds(numbers: Seq<i64>, at: int, n: int, low: int, high: int)
    ensures
        can_be_drawn(None, at, n, low, high) <==> low <= n < high,
        can_be_drawn(Some(numbers), at, n, low, high) && low < high ==> low <= n < high,
        can_be_drawn(Some(numbers), at, n, low, high) && 0 <= at < numbers.len() && low <= numbers[at] < high
            ==> n == numbers[at],
        can_be_drawn(Some(numbers), at, n, low, high) && !(0 <= at < numbers.len() && low <= numbers[at]
            < high) ==> n == low,
{
}

/// The integers at the edges of 64 bits, and those about zero, are drawn.
pub proof fn edges_are_extreme(i: int)
    requires
        0 <= i < 9,
    ensures
        i64::MIN <= edge(i) <= i64::MAX,
        edge(0) == 0 && edge(1) == 1 && edge(2) == -1,
        edge(3) == i64::MAX && edge(4) == i64::MIN && edge(5) == i64::MAX - 1 && edge(6) == i64::MIN + 1,
        edge(7) == 0x4000_0000_0000_0000,
{
}

/// A generated expression with an operator is made of two expressions with the
/// operator between blanks, all in parentheses. Its operator is one of the seven
/// arithmetic or six comparison operators.
pub proof fn operators_stand_between_expressions(d: Seq<int>, at: int, depth: nat)
    requires
        depth > 0,
        0 <= d[at] <= 4,
    ensures
        ({
            let (text, next, possible) = expr_from(d, at, depth, None);
            let (x, middle, _) = expr_from(d, at + 2, (depth - 1) as nat, None);
            let (y, end, _) = expr_from(d, middle, (depth - 1) as nat, None);
            let arithmetic = seq!["+"@, "-"@, "*"@, "/"@, "//"@, "%"@, "**"@];
            let comparisons = seq!["=="@, "!="@, "<"@, ">"@, "<="@, ">="@];
            possible ==> {
                &&& next == end
                &&& d[at] <= 3 ==> 0 <= d[at + 1] < 7 && text == "("@ + x + " "@ + arithmetic[d[at + 1]] + " "@
                    + y + ")"@
                &&& d[at] == 4 ==> 0 <= d[at + 1] < 6 && text == "("@ + x + " "@ + comparisons[d[at + 1]]
                    + " "@ + y + ")"@
            }
        }),
{
}

/// A generated atom is an integer, a floating-point number, a text in quotes, a
/// path made of a text, a constant or a name of a symbol.
pub proof fn atoms_are_of_six_kinds(d: Seq<int>, at: int)
    ensures
        ({
            let (text, next, possible) = atom_from(d, at, None);
            let floats = seq!["0.0"@, "1.5"@, "-9.2e18"@, "9.2e18"@, "1e308"@, "-1e308"@, "0.1"@];
            let names = seq!["N"@, "Param.Count"@, "S"@, "P"@];
            possible ==> {
                &&& 0 <= d[at] < 6
                &&& d[at] == 0 ==> next == at + 3 && exists|i: int|
                    i64::MIN <= i <= i64::MAX && text == #[trigger] int_text(i)
                &&& d[at] == 1 ==> next == at + 2 && 0 <= d[at + 1] < 7 && text == floats[d[at + 1]]
                &&& d[at] == 2 ==> next == at + 2 && 0 <= d[at + 1] < 7 && text == "'"@ + string_choice(
                    d[at + 1],
                ) + "'"@
                &&& d[at] == 3 ==> next == at + 2 && 0 <= d[at + 1] < 5 && text == "path("@ + path_choice(
                    d[at + 1],
                ) + ")"@
                &&& d[at] == 4 ==> next == at + 2 && 0 <= d[at + 1] < 3 && text == seq![
                    "true"@,
                    "false"@,
                    "null"@,
                ][d[at + 1]]
                &&& d[at] == 5 ==> next == at + 2 && 0 <= d[at + 1] < 4 && text == names[d[at + 1]]
            }
        }),
{
    if d[at] == 0 && atom_from(d, at, None).2 {
        let value = if d[at + 1] == 1 {
            edge(d[at + 2])
        } else {
            d[at + 2]
        };
        assert(atom_from(d, at, None).0 == int_text(value));
    }
}

/// The texts that are drawn are the empty one, ASCII ones with and without
/// blanks, one that looks like a number and one beyond ASCII.
pub proof fn drawn_texts_differ(i: int)
    requires
        0 <= i < 7,
    ensures
        string_choice(i) == seq!["", "a", "ab", "12.5", "日本語", "a b c", "prefix"][i]@,
        i < 5 ==> path_choice(i) == seq!["'/tmp/x'", "'C:\\\\a\\\\b'", "'日/本'", "'a'", "'/a/b/c.txt'"][i]@,
{
}

/// A generated call is that of a function on generated arguments: of one
/// expression, of an expression and a count, of two expressions, of a text, of
/// a text and a count, or the name of a path.
pub proof fn calls_take_generated_arguments(d: Seq<int>, at: int, depth: nat)
    requires
        depth > 0,
    ensures
        ({
            let (text, next, possible) = call_from(d, at, depth, None);
            let (x, after, _) = expr_from(d, at + 1, (depth - 1) as nat, None);
            let (y, end, _) = expr_from(d, after, (depth - 1) as nat, None);
            let drawn = "'"@ + string_choice(d[at + 1]) + "'"@;
            possible ==> {
                &&& 0 <= d[at] < 12
                &&& d[at] == 0 ==> text == "abs("@ + x + ")"@ && next == after
                &&& d[at] == 4 ==> text == "floor("@ + x + ")"@ && next == after
                &&& d[at] == 5 ==> text == "ceil("@ + x + ")"@ && next == after
                &&& d[at] == 6 ==> text == "int("@ + x + ")"@ && next == after
                &&& d[at] == 7 ==> text == "float("@ + x + ")"@ && next == after
                &&& d[at] == 1 ==> -8 <= d[after] < 12 && text == "round("@ + x + ", "@ + int_text(d[after])
                    + ")"@ && next == after + 1
                &&& d[at] == 2 ==> text == "min("@ + x + ", "@ + y + ")"@ && next == end
                &&& d[at] == 3 ==> text == "max("@ + x + ", "@ + y + ")"@ && next == end
                &&& d[at] == 8 ==> text == "len("@ + drawn + ")"@ && next == at + 2
                &&& d[at] == 9 ==> -8 <= d[at + 2] < 12 && text == "center("@ + drawn + ", "@ + int_text(
                    d[at + 2],
                ) + ")"@ && next == at + 3
                &&& d[at] == 10 ==> -8 <= d[at + 2] < 12 && text == "split("@ + drawn + ", "@ + int_text(
                    d[at + 2],
                ) + ")"@ && next == at + 3
                &&& d[at] == 11 ==> text == "path("@ + path_choice(d[at + 1]) + ").name"@ && next == at + 2
            }
        }),
{
}

} // verus!
