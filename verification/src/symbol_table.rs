//! Symbols by their dotted names.

use vstd::prelude::*;

use crate::assoc::{
    lemma_key_by_position, lemma_key_found, lemma_key_missing, lemma_key_pushed, lemma_key_replaced,
    lookup,
};
use crate::text::chars_of;
use crate::value::{ExprValue, ValueView};

verus! {

/// A symbol and its value.
#[derive(Debug)]
pub struct Symbol {
    pub name: String,
    pub value: ExprValue,
}

/// Whether a name lies in the scope of another: it goes on with a dot.
pub open spec fn is_within(name: Seq<char>, scope: Seq<char>) -> bool {
    &&& name.len() > scope.len()
    &&& name.take(scope.len() as int) == scope
    &&& name[scope.len() as int] == '.'
}

/// Whether two names cannot both have values: one is a scope of the other.
pub open spec fn collides(a: Seq<char>, b: Seq<char>) -> bool {
    is_within(a, b) || is_within(b, a)
}

/// The models of symbols.
pub open spec fn symbol_models(symbols: Seq<Symbol>) -> Seq<(Seq<char>, ValueView)> {
    Seq::new(symbols.len(), |i: int| (symbols[i].name@, symbols[i].value@))
}

/// The first symbol that a name collides with.
pub open spec fn collision(symbols: Seq<(Seq<char>, ValueView)>, name: Seq<char>) -> Option<Seq<char>>
    decreases symbols.len(),
{
    if symbols.len() == 0 {
        None
    } else if collides(symbols[0].0, name) {
        Some(symbols[0].0)
    } else {
        collision(symbols.skip(1), name)
    }
}

/// Whether no symbol is in the scope of another, and none occurs twice.
pub open spec fn consistent(symbols: Seq<(Seq<char>, ValueView)>) -> bool {
    forall|i: int, j: int|
        0 <= i < symbols.len() && 0 <= j < symbols.len() && i != j ==> !collides(
            #[trigger] symbols[i].0,
            #[trigger] symbols[j].0,
        ) && symbols[i].0 != symbols[j].0
}

/// The symbols with one of them set: in its place where it has a value, last
/// where it is new.
pub open spec fn with_symbol(
    symbols: Seq<(Seq<char>, ValueView)>,
    name: Seq<char>,
    value: ValueView,
) -> Seq<(Seq<char>, ValueView)>
    decreases symbols.len(),
{
    if symbols.len() == 0 {
        seq![(name, value)]
    } else if symbols[0].0 == name {
        symbols.update(0, (name, value))
    } else {
        seq![symbols[0]] + with_symbol(symbols.skip(1), name, value)
    }
}

/// Setting a symbol that stands at a place.
proof fn lemma_set_in_place(
    symbols: Seq<(Seq<char>, ValueView)>,
    at: int,
    name: Seq<char>,
    value: ValueView,
)
    requires
        0 <= at < symbols.len(),
        symbols[at].0 == name,
        forall|j: int| 0 <= j < at ==> #[trigger] symbols[j].0 != name,
    ensures
        with_symbol(symbols, name, value) == symbols.update(at, (name, value)),
    decreases at,
{
    if at > 0 {
        assert(symbols[0].0 != name);
        let rest = symbols.skip(1);
        assert forall|j: int| 0 <= j < at - 1 implies #[trigger] rest[j].0 != name by {
            assert(rest[j] == symbols[j + 1]);
        }
        lemma_set_in_place(rest, at - 1, name, value);
        assert(seq![symbols[0]] + rest.update(at - 1, (name, value)) =~= symbols.update(
            at,
            (name, value),
        ));
    }
}

/// Setting a new symbol.
proof fn lemma_set_last(symbols: Seq<(Seq<char>, ValueView)>, name: Seq<char>, value: ValueView)
    requires
        forall|j: int| 0 <= j < symbols.len() ==> #[trigger] symbols[j].0 != name,
    ensures
        with_symbol(symbols, name, value) == symbols.push((name, value)),
    decreases symbols.len(),
{
    if symbols.len() == 0 {
        assert(symbols.push((name, value)) =~= seq![(name, value)]);
    } else {
        assert(symbols[0].0 != name);
        let rest = symbols.skip(1);
        assert forall|j: int| 0 <= j < rest.len() implies #[trigger] rest[j].0 != name by {
            assert(rest[j] == symbols[j + 1]);
        }
        lemma_set_last(rest, name, value);
        assert(seq![symbols[0]] + rest.push((name, value)) =~= symbols.push((name, value)));
    }
}

/// Why a symbol is not set.
#[derive(Debug)]
pub struct SymbolTableError {
    /// The name that was to be set.
    pub name: String,
    /// The symbol that it collides with.
    pub existing: String,
}

/// The text of a collision.
pub open spec fn collision_text(name: Seq<char>, existing: Seq<char>) -> Seq<char> {
    "Cannot set '"@ + name + "': it conflicts with '"@ + existing + "'"@
}

impl SymbolTableError {
    pub fn to_string(&self) -> (r: String)
        ensures
            r@ == collision_text(self.name@, self.existing@),
    {
        "Cannot set '".to_owned().concat(self.name.as_str()).concat("': it conflicts with '").concat(
            self.existing.as_str(),
        ).concat("'")
    }
}

/// Whether `name` goes on with a dot after `scope`.
fn name_within(name: &Vec<char>, scope: &Vec<char>) -> (r: bool)
    ensures
        r == is_within(name@, scope@),
{
    if name.len() <= scope.len() || name[scope.len()] != '.' {
        return false;
    }
    let mut i: usize = 0;
    while i < scope.len()
        invariant
            i <= scope@.len() < name@.len(),
            forall|j: int| 0 <= j < i ==> name@[j] == scope@[j],
        decreases scope@.len() - i,
    {
        if name[i] != scope[i] {
            assert(name@.take(scope@.len() as int)[i as int] != scope@[i as int]);
            return false;
        }
        i = i + 1;
    }
    assert(name@.take(scope@.len() as int) =~= scope@);
    true
}

fn names_collide(a: &str, b: &str) -> (r: bool)
    ensures
        r == collides(a@, b@),
{
    let first = chars_of(a);
    let second = chars_of(b);
    name_within(&first, &second) || name_within(&second, &first)
}

/// A table of symbols. A name is a value or a scope, never both.
#[derive(Debug)]
pub struct SymbolTable {
    symbols: Vec<Symbol>,
}

impl View for SymbolTable {
    type V = Seq<(Seq<char>, ValueView)>;

    closed spec fn view(&self) -> Seq<(Seq<char>, ValueView)> {
        symbol_models(self.symbols@)
    }
}

/// Symbols of which none collides with a name.
proof fn lemma_no_collision(symbols: Seq<(Seq<char>, ValueView)>, name: Seq<char>, i: int)
    requires
        0 <= i <= symbols.len(),
        forall|j: int| 0 <= j < i ==> !collides(#[trigger] symbols[j].0, name),
    ensures
        collision(symbols, name) == collision(symbols.skip(i), name),
    decreases i,
{
    if i == 0 {
        assert(symbols.skip(0) =~= symbols);
    } else {
        let rest = symbols.skip(1);
        assert(!collides(symbols[0].0, name));
        assert forall|j: int| 0 <= j < i - 1 implies !collides(#[trigger] rest[j].0, name) by {
            assert(rest[j] == symbols[j + 1]);
        }
        lemma_no_collision(rest, name, i - 1);
        assert(rest.skip(i - 1) =~= symbols.skip(i));
    }
}

impl SymbolTable {
    #[verifier::type_invariant]
    spec fn well_formed(self) -> bool {
        consistent(symbol_models(self.symbols@))
    }

    /// A table without symbols.
    pub fn new() -> (r: SymbolTable)
        ensures
            r@ == Seq::<(Seq<char>, ValueView)>::empty(),
    {
        let symbols: Vec<Symbol> = Vec::new();
        assert(symbol_models(symbols@) =~= seq![]);
        SymbolTable { symbols }
    }

    /// The value of a symbol.
    pub fn get(&self, name: &str) -> (r: Option<&ExprValue>)
        ensures
            match r {
                Some(v) => lookup(self@, name@) == Some(v@),
                None => lookup(self@, name@) is None,
            },
    {
        match self.position(name) {
            Some(i) => {
                proof {
                    lemma_key_found(self@, name@, i as int);
                }
                Some(&self.symbols[i].value)
            },
            None => {
                proof {
                    lemma_key_missing(self@, name@);
                }
                None
            },
        }
    }

    /// The place of a symbol.
    fn position(&self, name: &str) -> (r: Option<usize>)
        ensures
            match r {
                Some(i) => i < self@.len() && self@[i as int].0 == name@ && forall|j: int|
                    0 <= j < i ==> #[trigger] self@[j].0 != name@,
                None => forall|j: int| 0 <= j < self@.len() ==> #[trigger] self@[j].0 != name@,
            },
    {
        let key = name.to_owned();
        let mut i: usize = 0;
        while i < self.symbols.len()
            invariant
                i <= self.symbols@.len(),
                self@ == symbol_models(self.symbols@),
                key@ == name@,
                forall|j: int| 0 <= j < i ==> #[trigger] self@[j].0 != name@,
            decreases self.symbols@.len() - i,
        {
            if self.symbols[i].name.eq(&key) {
                return Some(i);
            }
            i = i + 1;
        }
        None
    }

    /// Whether a symbol has a value.
    pub fn has(&self, name: &str) -> (r: bool)
        ensures
            r == (lookup(self@, name@) is Some),
    {
        self.get(name).is_some()
    }

    /// Sets the value of a symbol. It is an error to set a symbol in the scope
    /// of a symbol that has a value, or one that is a scope of others; the
    /// table then stays as it was.
    pub fn set(&mut self, name: &str, value: ExprValue) -> (r: Result<(), SymbolTableError>)
        ensures
            consistent(final(self)@),
            match r {
                Ok(()) => {
                    &&& collision(old(self)@, name@) is None
                    &&& final(self)@ == with_symbol(old(self)@, name@, value@)
                    &&& forall|k: Seq<char>| #[trigger]
                        lookup(final(self)@, k) == (if k == name@ {
                            Some(value@)
                        } else {
                            lookup(old(self)@, k)
                        })
                },
                Err(e) => {
                    &&& collision(old(self)@, name@) == Some(e.existing@)
                    &&& e.name@ == name@
                    &&& final(self)@ == old(self)@
                },
            },
    {
        proof {
            use_type_invariant(&*self);
        }
        let ghost before = self@;
        let mut i: usize = 0;
        while i < self.symbols.len()
            invariant
                i <= self.symbols@.len(),
                *self == *old(self),
                self@ == before,
                before == symbol_models(self.symbols@),
                consistent(before),
                forall|j: int| 0 <= j < i ==> !collides(#[trigger] before[j].0, name@),
            decreases self.symbols@.len() - i,
        {
            if names_collide(self.symbols[i].name.as_str(), name) {
                proof {
                    lemma_no_collision(before, name@, i as int);
                }
                return Err(
                    SymbolTableError {
                        name: name.to_owned(),
                        existing: self.symbols[i].name.clone(),
                    },
                );
            }
            i = i + 1;
        }
        proof {
            lemma_no_collision(before, name@, before.len() as int);
        }
        let found = self.position(name);
        let mut taken = SymbolTable::new();
        std::mem::swap(&mut taken, self);
        let mut symbols = taken.symbols;
        let symbol = Symbol { name: name.to_owned(), value };
        match found {
            Some(at) => {
                proof {
                    lemma_key_replaced(before, at as int, name@, value@);
                    lemma_set_in_place(before, at as int, name@, value@);
                    assert(symbol_models(symbols@.update(at as int, symbol)) =~= before.update(
                        at as int,
                        (name@, value@),
                    ));
                }
                symbols.set(at, symbol);
            },
            None => {
                proof {
                    lemma_key_missing(before, name@);
                    lemma_key_pushed(before, name@, value@);
                    lemma_set_last(before, name@, value@);
                    assert(symbol_models(symbols@.push(symbol)) =~= before.push((name@, value@)));
                }
                symbols.push(symbol);
            },
        }
        *self = SymbolTable { symbols };
        Ok(())
    }

    /// Sets a symbol to a text.
    pub fn set_string(&mut self, name: &str, text: &str) -> (r: Result<(), SymbolTableError>)
        ensures
            consistent(final(self)@),
            match r {
                Ok(()) => {
                    &&& collision(old(self)@, name@) is None
                    &&& final(self)@ == with_symbol(old(self)@, name@, ValueView::Text(text@))
                    &&& forall|k: Seq<char>| #[trigger]
                        lookup(final(self)@, k) == (if k == name@ {
                            Some(ValueView::Text(text@))
                        } else {
                            lookup(old(self)@, k)
                        })
                },
                Err(e) => {
                    &&& collision(old(self)@, name@) == Some(e.existing@)
                    &&& e.name@ == name@
                    &&& final(self)@ == old(self)@
                },
            },
    {
        self.set(name, ExprValue::String(text.to_owned()))
    }

    /// The names of all symbols.
    pub fn all_paths(&self) -> (r: Vec<String>)
        ensures
            r@.len() == self@.len(),
            forall|i: int| 0 <= i < r@.len() ==> #[trigger] r@[i]@ == self@[i].0,
    {
        let mut out: Vec<String> = Vec::new();
        let mut i: usize = 0;
        while i < self.symbols.len()
            invariant
                i <= self.symbols@.len(),
                self@ == symbol_models(self.symbols@),
                out@.len() == i,
                forall|j: int| 0 <= j < i ==> #[trigger] out@[j]@ == self@[j].0,
            decreases self.symbols@.len() - i,
        {
            out.push(self.symbols[i].name.clone());
            i = i + 1;
        }
        out
    }
}

impl Default for SymbolTable {
    fn default() -> (r: SymbolTable)
        ensures
            r@ == Seq::<(Seq<char>, ValueView)>::empty(),
    {
        SymbolTable::new()
    }
}

/// A symbol that does not collide.
proof fn lemma_collides_with_none(symbols: Seq<(Seq<char>, ValueView)>, name: Seq<char>, i: int)
    requires
        collision(symbols, name) is None,
        0 <= i < symbols.len(),
    ensures
        !collides(symbols[i].0, name),
    decreases i,
{
    if i > 0 {
        lemma_collides_with_none(symbols.skip(1), name, i - 1);
        assert(symbols.skip(1)[i - 1] == symbols[i]);
    }
}

/// A name is a value or a scope, never both, and has one value: setting a
/// symbol keeps it so.
pub proof fn setting_keeps_names_apart(
    symbols: Seq<(Seq<char>, ValueView)>,
    name: Seq<char>,
    value: ValueView,
)
    requires
        consistent(symbols),
        collision(symbols, name) is None,
    ensures
        consistent(with_symbol(symbols, name, value)),
{
    assert forall|i: int| 0 <= i < symbols.len() implies !collides(#[trigger] symbols[i].0, name)
        && !collides(name, symbols[i].0) by {
        lemma_collides_with_none(symbols, name, i);
    }
    lemma_key_by_position(symbols, name);
    match lookup(symbols, name) {
        Some(v) => {
            let at = choose|i: int|
                0 <= i < symbols.len() && (#[trigger] symbols[i]) == (name, v) && forall|j: int|
                    0 <= j < i ==> (#[trigger] symbols[j]).0 != name;
            lemma_set_in_place(symbols, at, name, value);
            let changed = symbols.update(at, (name, value));
            assert forall|i: int, j: int|
                0 <= i < changed.len() && 0 <= j < changed.len() && i != j implies !collides(
                #[trigger] changed[i].0,
                #[trigger] changed[j].0,
            ) && changed[i].0 != changed[j].0 by {
                assert(changed[i].0 == symbols[i].0 && changed[j].0 == symbols[j].0);
            }
        },
        None => {
            lemma_set_last(symbols, name, value);
            let longer = symbols.push((name, value));
            assert forall|i: int, j: int|
                0 <= i < longer.len() && 0 <= j < longer.len() && i != j implies !collides(
                #[trigger] longer[i].0,
                #[trigger] longer[j].0,
            ) && longer[i].0 != longer[j].0 by {
                if i < symbols.len() {
                    assert(longer[i] == symbols[i]);
                }
                if j < symbols.len() {
                    assert(longer[j] == symbols[j]);
                }
            }
        },
    }
}

/// Of two symbols with values neither is in the scope of the other.
pub proof fn values_have_no_values_within(
    symbols: Seq<(Seq<char>, ValueView)>,
    a: Seq<char>,
    b: Seq<char>,
)
    requires
        consistent(symbols),
        lookup(symbols, a) is Some,
        lookup(symbols, b) is Some,
    ensures
        !is_within(a, b),
{
    lemma_key_by_position(symbols, a);
    lemma_key_by_position(symbols, b);
    let i = choose|i: int| 0 <= i < symbols.len() && (#[trigger] symbols[i]).0 == a;
    let j = choose|j: int| 0 <= j < symbols.len() && (#[trigger] symbols[j]).0 == b;
    if i != j {
        assert(!collides(symbols[i].0, symbols[j].0));
    }
}

} // verus!
