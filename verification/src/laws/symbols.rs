//! What symbols are set to and how they are found.

use vstd::prelude::*;

use crate::assoc::lookup;
use crate::symbol_table::{collision, with_symbol};
use crate::value::ValueView;

verus! {

/// Whether a name goes on from another with a dot.
pub open spec fn extends(name: Seq<char>, scope: Seq<char>) -> bool {
    exists|rest: Seq<char>| name == #[trigger] (scope.push('.') + rest)
}

/// Whether a name goes on from another with a dot, or the other from it.
pub open spec fn overlaps(a: Seq<char>, b: Seq<char>) -> bool {
    extends(a, b) || extends(b, a)
}

proof fn lemma_extends(name: Seq<char>, scope: Seq<char>)
    ensures
        crate::symbol_table::is_within(name, scope) <==> extends(name, scope),
{
    if crate::symbol_table::is_within(name, scope) {
        let rest = name.skip(scope.len() as int + 1);
        assert(name =~= scope.push('.') + rest);
    }
    if extends(name, scope) {
        let rest = choose|rest: Seq<char>| name == #[trigger] (scope.push('.') + rest);
        assert(name.take(scope.len() as int) =~= scope);
    }
}

/// A name collides if and only if some symbol goes on from it with a dot or it
/// from the symbol; the first such symbol is named.
pub proof fn collisions_are_with_scopes(symbols: Seq<(Seq<char>, ValueView)>, name: Seq<char>)
    ensures
        match collision(symbols, name) {
            Some(other) => exists|i: int|
                0 <= i < symbols.len() && (#[trigger] symbols[i]).0 == other && overlaps(other, name)
                    && forall|j: int| 0 <= j < i ==> !overlaps((#[trigger] symbols[j]).0, name),
            None => forall|i: int| 0 <= i < symbols.len() ==> !overlaps((#[trigger] symbols[i]).0, name),
        },
    decreases symbols.len(),
{
    if symbols.len() > 0 {
        lemma_extends(symbols[0].0, name);
        lemma_extends(name, symbols[0].0);
        let rest = symbols.skip(1);
        if overlaps(symbols[0].0, name) {
            assert(symbols[0].0 == symbols[0].0);
        } else {
            collisions_are_with_scopes(rest, name);
            match collision(rest, name) {
                Some(other) => {
                    let i = choose|i: int|
                        0 <= i < rest.len() && (#[trigger] rest[i]).0 == other && overlaps(other, name)
                            && forall|j: int| 0 <= j < i ==> !overlaps((#[trigger] rest[j]).0, name);
                    assert(symbols[i + 1].0 == other);
                    assert forall|j: int| 0 <= j < i + 1 implies !overlaps(
                        (#[trigger] symbols[j]).0,
                        name,
                    ) by {
                        if j > 0 {
                            assert(symbols[j] == rest[j - 1]);
                        }
                    }
                },
                None => {
                    assert forall|i: int| 0 <= i < symbols.len() implies !overlaps(
                        (#[trigger] symbols[i]).0,
                        name,
                    ) by {
                        if i > 0 {
                            assert(symbols[i] == rest[i - 1]);
                        }
                    }
                },
            }
        }
    }
}

/// The value that a name was set to is the one that is found, and all other
/// names keep theirs.
pub proof fn symbols_read_back(
    symbols: Seq<(Seq<char>, ValueView)>,
    name: Seq<char>,
    value: ValueView,
    other: Seq<char>,
)
    ensures
        lookup(with_symbol(symbols, name, value), name) == Some(value),
        other != name ==> lookup(with_symbol(symbols, name, value), other) == lookup(symbols, other),
        lookup(Seq::<(Seq<char>, ValueView)>::empty(), name) is None,
    decreases symbols.len(),
{
    reveal_with_fuel(lookup, 2);
    let after = with_symbol(symbols, name, value);
    if symbols.len() == 0 {
        assert(after.skip(1) =~= seq![]);
    } else if symbols[0].0 == name {
        assert(after.skip(1) =~= symbols.skip(1));
    } else {
        symbols_read_back(symbols.skip(1), name, value, other);
        assert(after.skip(1) =~= with_symbol(symbols.skip(1), name, value));
    }
}

/// A symbol that has a value keeps its place when it is set, and a new one comes
/// last. No other symbol is touched.
pub proof fn symbols_keep_their_places(
    symbols: Seq<(Seq<char>, ValueView)>,
    name: Seq<char>,
    value: ValueView,
    i: int,
)
    ensures
        ({
            let after = with_symbol(symbols, name, value);
            let is_first = 0 <= i < symbols.len() && symbols[i].0 == name && forall|j: int|
                0 <= j < i ==> (#[trigger] symbols[j]).0 != name;
            let is_new = forall|j: int| 0 <= j < symbols.len() ==> (#[trigger] symbols[j]).0 != name;
            &&& is_first ==> after == symbols.update(i, (name, value))
            &&& is_new ==> after == symbols.push((name, value))
        }),
    decreases symbols.len(),
{
    let after = with_symbol(symbols, name, value);
    let is_first = 0 <= i < symbols.len() && symbols[i].0 == name && forall|j: int|
        0 <= j < i ==> (#[trigger] symbols[j]).0 != name;
    let is_new = forall|j: int| 0 <= j < symbols.len() ==> (#[trigger] symbols[j]).0 != name;
    if symbols.len() > 0 && symbols[0].0 != name {
        let rest = symbols.skip(1);
        symbols_keep_their_places(rest, name, value, i - 1);
        if is_first {
            assert forall|j: int| 0 <= j < i - 1 implies (#[trigger] rest[j]).0 != name by {
                assert(rest[j] == symbols[j + 1]);
            }
            assert(seq![symbols[0]] + rest.update(i - 1, (name, value)) =~= symbols.update(
                i,
                (name, value),
            ));
        }
        if is_new {
            assert forall|j: int| 0 <= j < rest.len() implies (#[trigger] rest[j]).0 != name by {
                assert(rest[j] == symbols[j + 1]);
            }
            assert(seq![symbols[0]] + rest.push((name, value)) =~= symbols.push((name, value)));
        }
    } else if symbols.len() > 0 {
        assert(symbols[0].0 == name);
    }
}

/// A name has the value of its first entry, and none where it has no entry.
pub proof fn first_entries_count<V>(entries: Seq<(Seq<char>, V)>, key: Seq<char>, i: int)
    ensures
        0 <= i < entries.len() && entries[i].0 == key && (forall|j: int|
            0 <= j < i ==> (#[trigger] entries[j]).0 != key) ==> lookup(entries, key) == Some(
            entries[i].1,
        ),
        (forall|j: int| 0 <= j < entries.len() ==> (#[trigger] entries[j]).0 != key) ==> lookup(
            entries,
            key,
        ) is None,
{
    if 0 <= i < entries.len() && entries[i].0 == key && (forall|j: int|
        0 <= j < i ==> (#[trigger] entries[j]).0 != key) {
        crate::assoc::lemma_key_found(entries, key, i);
    }
    if forall|j: int| 0 <= j < entries.len() ==> (#[trigger] entries[j]).0 != key {
        crate::assoc::lemma_key_missing(entries, key);
    }
}

} // verus!
