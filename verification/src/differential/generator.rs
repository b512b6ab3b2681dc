//! Cases drawn at random from a small grammar of expressions.
//!
//! What is drawn decides everything: the text of an expression is a function of
//! the numbers drawn, in the order in which they were drawn.

use rand::{Rng, SeedableRng};
use vstd::prelude::*;

use crate::assoc::{lemma_key_missing, lemma_key_pushed, lookup};
use crate::differential::adapters::{CaseView, ExprCase};
use crate::json::{
    in_key_order, ordered_members_are_determined, JsonObject, JsonValue, JsonView,
};
use crate::text::{int_text, push_int};

verus! {

/// Where numbers are drawn from: those written down before, or chance.
pub type Source = Option<Seq<i64>>;

/// Whether a number is at least `low` and below `high`.
pub open spec fn among(n: int, low: int, high: int) -> bool {
    low <= n < high
}

/// The number drawn for the one that was written down for a place: that number
/// where it is between the bounds, and otherwise the least.
pub open spec fn admitted(numbers: Seq<i64>, at: int, low: int, high: int) -> int {
    if 0 <= at < numbers.len() && low <= numbers[at] < high {
        numbers[at] as int
    } else {
        low
    }
}

/// Whether a number can be drawn at a place, from `low` up to, but not
/// including, `high`. Chance may give any of them.
pub open spec fn can_be_drawn(source: Source, at: int, n: int, low: int, high: int) -> bool {
    match source {
        Some(numbers) => n == admitted(numbers, at, low, high),
        None => among(n, low, high),
    }
}

/// A truth value as one or zero.
pub open spec fn as_number(b: bool) -> int {
    if b {
        1
    } else {
        0
    }
}

/// A source of choices.
pub trait Choices {
    /// The numbers drawn so far. A truth value counts as one or zero.
    spec fn drawn(&self) -> Seq<int>;

    /// Where the numbers are drawn from.
    spec fn source(&self) -> Source;

    /// One of the first alternatives.
    fn alternative(&mut self, count: i32) -> (r: i32)
        requires
            0 < count,
        ensures
            0 <= r < count,
            can_be_drawn(old(self).source(), old(self).drawn().len() as int, r as int, 0, count as int),
            final(self).drawn() == old(self).drawn().push(r as int),
            final(self).source() == old(self).source(),
    ;

    /// A place in a list.
    fn place(&mut self, count: usize) -> (r: usize)
        requires
            0 < count,
        ensures
            r < count,
            can_be_drawn(old(self).source(), old(self).drawn().len() as int, r as int, 0, count as int),
            final(self).drawn() == old(self).drawn().push(r as int),
            final(self).source() == old(self).source(),
    ;

    /// An integer from `low` up to, but not including, `high`.
    fn integer(&mut self, low: i64, high: i64) -> (r: i64)
        requires
            low < high,
        ensures
            low <= r < high,
            can_be_drawn(old(self).source(), old(self).drawn().len() as int, r as int, low as int, high as int),
            final(self).drawn() == old(self).drawn().push(r as int),
            final(self).source() == old(self).source(),
    ;

    /// Whether something happens that happens `part` times in `whole`.
    fn chance(&mut self, part: u32, whole: u32) -> (r: bool)
        requires
            0 < whole,
            part <= whole,
        ensures
            can_be_drawn(old(self).source(), old(self).drawn().len() as int, as_number(r), 0, 2),
            final(self).drawn() == old(self).drawn().push(as_number(r)),
            final(self).source() == old(self).source(),
    ;

    /// A truth value.
    fn coin(&mut self) -> (r: bool)
        ensures
            can_be_drawn(old(self).source(), old(self).drawn().len() as int, as_number(r), 0, 2),
            final(self).drawn() == old(self).drawn().push(as_number(r)),
            final(self).source() == old(self).source(),
    ;
}

/// The generator of random numbers `rand::rngs::SmallRng`.
#[verifier::external_type_specification]
#[verifier::external_body]
pub struct ExSmallRng(rand::rngs::SmallRng);

/// `SmallRng::seed_from_u64`. The state that a seed leads to depends on the
/// machine, and is not described.
#[verifier::external_body]
fn seeded(seed: u64) -> (r: rand::rngs::SmallRng) {
    rand::rngs::SmallRng::seed_from_u64(seed)
}

/// `Rng::gen_range` over 32-bit integers from zero: a number below `count`.
#[verifier::external_body]
fn random_alternative(rng: &mut rand::rngs::SmallRng, count: i32) -> (r: i32)
    requires
        0 < count,
    ensures
        0 <= r < count,
{
    rng.gen_range(0..count)
}

/// `Rng::gen_range` over places from zero: a number below `count`.
#[verifier::external_body]
fn random_place(rng: &mut rand::rngs::SmallRng, count: usize) -> (r: usize)
    requires
        0 < count,
    ensures
        r < count,
{
    rng.gen_range(0..count)
}

/// `Rng::gen_range` over 64-bit integers: a number of the range.
#[verifier::external_body]
fn random_integer(rng: &mut rand::rngs::SmallRng, low: i64, high: i64) -> (r: i64)
    requires
        low < high,
    ensures
        low <= r < high,
{
    rng.gen_range(low..high)
}

/// `Rng::gen_ratio`: true `part` times in `whole`, so always where the two are
/// equal and never where `part` is zero.
#[verifier::external_body]
fn random_chance(rng: &mut rand::rngs::SmallRng, part: u32, whole: u32) -> (r: bool)
    requires
        0 < whole,
        part <= whole,
    ensures
        part == whole ==> r,
        part == 0 ==> !r,
{
    rng.gen_ratio(part, whole)
}

/// `Rng::gen` of a truth value. Either may come.
#[verifier::external_body]
fn random_coin(rng: &mut rand::rngs::SmallRng) -> (r: bool) {
    rng.gen::<bool>()
}

/// Random choices.
pub struct RandomChoices {
    rng: rand::rngs::SmallRng,
    drawn: Ghost<Seq<int>>,
}

impl RandomChoices {
    pub fn new(seed: u64) -> (r: RandomChoices)
        ensures
            r.drawn() == Seq::<int>::empty(),
    {
        RandomChoices { rng: seeded(seed), drawn: Ghost(Seq::empty()) }
    }
}

impl Choices for RandomChoices {
    closed spec fn drawn(&self) -> Seq<int> {
        self.drawn@
    }

    open spec fn source(&self) -> Source {
        None
    }

    fn alternative(&mut self, count: i32) -> (r: i32) {
        let r = random_alternative(&mut self.rng, count);
        self.drawn = Ghost(self.drawn@.push(r as int));
        r
    }

    fn place(&mut self, count: usize) -> (r: usize) {
        let r = random_place(&mut self.rng, count);
        self.drawn = Ghost(self.drawn@.push(r as int));
        r
    }

    fn integer(&mut self, low: i64, high: i64) -> (r: i64) {
        let r = random_integer(&mut self.rng, low, high);
        self.drawn = Ghost(self.drawn@.push(r as int));
        r
    }

    fn chance(&mut self, part: u32, whole: u32) -> (r: bool) {
        let r = random_chance(&mut self.rng, part, whole);
        self.drawn = Ghost(self.drawn@.push(as_number(r)));
        r
    }

    fn coin(&mut self) -> (r: bool) {
        let r = random_coin(&mut self.rng);
        self.drawn = Ghost(self.drawn@.push(as_number(r)));
        r
    }
}

/// Choices written down before. A number that is not possible where it is
/// drawn, or that is missing, is replaced by the least possible one.
pub struct ReplayedChoices {
    numbers: Vec<i64>,
    next: usize,
    drawn: Ghost<Seq<int>>,
}

impl ReplayedChoices {
    #[verifier::type_invariant]
    spec fn well_formed(self) -> bool {
        &&& self.next <= self.numbers@.len()
        &&& self.next <= self.drawn@.len()
        &&& self.next < self.numbers@.len() ==> self.next == self.drawn@.len()
    }

    pub closed spec fn numbers(self) -> Seq<i64> {
        self.numbers@
    }

    /// The choices of these numbers.
    pub fn new(numbers: Vec<i64>) -> (r: ReplayedChoices)
        ensures
            r.drawn() == Seq::<int>::empty(),
            r.numbers() == numbers@,
    {
        ReplayedChoices { numbers, next: 0, drawn: Ghost(Seq::empty()) }
    }

    fn draw(&mut self, low: i128, high: i128) -> (r: i128)
        requires
            low < high,
        ensures
            low <= r < high,
            r == admitted(old(self).numbers(), old(self).drawn().len() as int, low as int, high as int),
            final(self).drawn() == old(self).drawn().push(r as int),
            final(self).numbers() == old(self).numbers(),
    {
        proof {
            use_type_invariant(&*self);
        }
        let mut taken = ReplayedChoices { numbers: Vec::new(), next: 0, drawn: Ghost(Seq::empty()) };
        std::mem::swap(&mut taken, self);
        let mut r: i128 = low;
        let mut next: usize = taken.next;
        if next < taken.numbers.len() {
            let number: i128 = taken.numbers[next] as i128;
            if low <= number && number < high {
                r = number;
            }
            next = next + 1;
        }
        *self = ReplayedChoices {
            numbers: taken.numbers,
            next,
            drawn: Ghost(taken.drawn@.push(r as int)),
        };
        r
    }
}

impl Choices for ReplayedChoices {
    closed spec fn drawn(&self) -> Seq<int> {
        self.drawn@
    }

    open spec fn source(&self) -> Source {
        Some(self.numbers())
    }

    fn alternative(&mut self, count: i32) -> (r: i32) {
        self.draw(0, count as i128) as i32
    }

    fn place(&mut self, count: usize) -> (r: usize) {
        self.draw(0, count as i128) as usize
    }

    fn integer(&mut self, low: i64, high: i64) -> (r: i64) {
        self.draw(low as i128, high as i128) as i64
    }

    fn chance(&mut self, part: u32, whole: u32) -> (r: bool) {
        self.draw(0, 2) == 1
    }

    fn coin(&mut self) -> (r: bool) {
        self.draw(0, 2) == 1
    }
}

/// The binary operators.
pub open spec fn binary_operator(i: int) -> Seq<char> {
    if i == 0 {
        "+"@
    } else if i == 1 {
        "-"@
    } else if i == 2 {
        "*"@
    } else if i == 3 {
        "/"@
    } else if i == 4 {
        "//"@
    } else if i == 5 {
        "%"@
    } else {
        "**"@
    }
}

fn binary_operator_text(i: usize) -> (r: &'static str)
    ensures
        r@ == binary_operator(i as int),
{
    if i == 0 {
        "+"
    } else if i == 1 {
        "-"
    } else if i == 2 {
        "*"
    } else if i == 3 {
        "/"
    } else if i == 4 {
        "//"
    } else if i == 5 {
        "%"
    } else {
        "**"
    }
}

/// The comparison operators.
pub open spec fn comparison_operator(i: int) -> Seq<char> {
    if i == 0 {
        "=="@
    } else if i == 1 {
        "!="@
    } else if i == 2 {
        "<"@
    } else if i == 3 {
        ">"@
    } else if i == 4 {
        "<="@
    } else {
        ">="@
    }
}

fn comparison_operator_text(i: usize) -> (r: &'static str)
    ensures
        r@ == comparison_operator(i as int),
{
    if i == 0 {
        "=="
    } else if i == 1 {
        "!="
    } else if i == 2 {
        "<"
    } else if i == 3 {
        ">"
    } else if i == 4 {
        "<="
    } else {
        ">="
    }
}

/// The constants of the language.
pub open spec fn constant(i: int) -> Seq<char> {
    if i == 0 {
        "true"@
    } else if i == 1 {
        "false"@
    } else {
        "null"@
    }
}

fn constant_text(i: usize) -> (r: &'static str)
    ensures
        r@ == constant(i as int),
{
    if i == 0 {
        "true"
    } else if i == 1 {
        "false"
    } else {
        "null"
    }
}

/// The names of symbols.
pub open spec fn symbol_name(i: int) -> Seq<char> {
    if i == 0 {
        "N"@
    } else if i == 1 {
        "Param.Count"@
    } else if i == 2 {
        "S"@
    } else {
        "P"@
    }
}

fn symbol_name_text(i: usize) -> (r: &'static str)
    ensures
        r@ == symbol_name(i as int),
{
    if i == 0 {
        "N"
    } else if i == 1 {
        "Param.Count"
    } else if i == 2 {
        "S"
    } else {
        "P"
    }
}

/// The floating-point literals.
pub open spec fn float_choice(i: int) -> Seq<char> {
    if i == 0 {
        "0.0"@
    } else if i == 1 {
        "1.5"@
    } else if i == 2 {
        "-9.2e18"@
    } else if i == 3 {
        "9.2e18"@
    } else if i == 4 {
        "1e308"@
    } else if i == 5 {
        "-1e308"@
    } else {
        "0.1"@
    }
}

fn float_choice_text(i: usize) -> (r: &'static str)
    ensures
        r@ == float_choice(i as int),
{
    if i == 0 {
        "0.0"
    } else if i == 1 {
        "1.5"
    } else if i == 2 {
        "-9.2e18"
    } else if i == 3 {
        "9.2e18"
    } else if i == 4 {
        "1e308"
    } else if i == 5 {
        "-1e308"
    } else {
        "0.1"
    }
}

/// The contents of string literals.
pub open spec fn string_choice(i: int) -> Seq<char> {
    if i == 0 {
        ""@
    } else if i == 1 {
        "a"@
    } else if i == 2 {
        "ab"@
    } else if i == 3 {
        "12.5"@
    } else if i == 4 {
        "日本語"@
    } else if i == 5 {
        "a b c"@
    } else {
        "prefix"@
    }
}

fn string_choice_text(i: usize) -> (r: &'static str)
    ensures
        r@ == string_choice(i as int),
{
    if i == 0 {
        ""
    } else if i == 1 {
        "a"
    } else if i == 2 {
        "ab"
    } else if i == 3 {
        "12.5"
    } else if i == 4 {
        "日本語"
    } else if i == 5 {
        "a b c"
    } else {
        "prefix"
    }
}

/// The literals of paths.
pub open spec fn path_choice(i: int) -> Seq<char> {
    if i == 0 {
        "'/tmp/x'"@
    } else if i == 1 {
        "'C:\\\\a\\\\b'"@
    } else if i == 2 {
        "'日/本'"@
    } else if i == 3 {
        "'a'"@
    } else {
        "'/a/b/c.txt'"@
    }
}

fn path_choice_text(i: usize) -> (r: &'static str)
    ensures
        r@ == path_choice(i as int),
{
    if i == 0 {
        "'/tmp/x'"
    } else if i == 1 {
        "'C:\\\\a\\\\b'"
    } else if i == 2 {
        "'日/本'"
    } else if i == 3 {
        "'a'"
    } else {
        "'/a/b/c.txt'"
    }
}

/// The integers at the edges.
pub open spec fn edge(i: int) -> int {
    if i == 0 {
        0
    } else if i == 1 {
        1
    } else if i == 2 {
        -1
    } else if i == 3 {
        i64::MAX as int
    } else if i == 4 {
        i64::MIN as int
    } else if i == 5 {
        i64::MAX - 1
    } else if i == 6 {
        i64::MIN + 1
    } else if i == 7 {
        4_611_686_018_427_387_904
    } else {
        i64::MAX as int
    }
}

fn edge_value(i: usize) -> (r: i64)
    ensures
        r == edge(i as int),
{
    if i == 0 {
        0
    } else if i == 1 {
        1
    } else if i == 2 {
        -1
    } else if i == 3 {
        i64::MAX
    } else if i == 4 {
        i64::MIN
    } else if i == 5 {
        i64::MAX - 1
    } else if i == 6 {
        i64::MIN + 1
    } else if i == 7 {
        4_611_686_018_427_387_904
    } else {
        i64::MAX
    }
}

/// A text read from the numbers drawn, the place of the next number, and
/// whether each number is one that can be drawn at its place.
pub type Reading = (Seq<char>, int, bool);

/// An integer, often one at the edges: two numbers.
pub open spec fn edge_int_from(d: Seq<int>, at: int, source: Source) -> (int, bool) {
    if d[at] == 1 {
        (edge(d[at + 1]), can_be_drawn(source, at, d[at], 0, 2) && can_be_drawn(source, at + 1, d[at + 1], 0, 9))
    } else {
        (d[at + 1], can_be_drawn(source, at, d[at], 0, 2) && can_be_drawn(source, at + 1, d[at + 1], -1000, 1000))
    }
}

/// Whether a number can be drawn for a count: small, and sometimes negative.
pub open spec fn is_count(d: Seq<int>, at: int, source: Source) -> bool {
    can_be_drawn(source, at, d[at], -8, 12)
}

/// A string literal: one number.
pub open spec fn string_from(d: Seq<int>, at: int, source: Source) -> (Seq<char>, bool) {
    ("'"@ + string_choice(d[at]) + "'"@, can_be_drawn(source, at, d[at], 0, 7))
}

/// An expression without parts.
pub open spec fn atom_from(d: Seq<int>, at: int, source: Source) -> Reading {
    let kind = d[at];
    let known = can_be_drawn(source, at, kind, 0, 6);
    if kind == 0 {
        let (value, possible) = edge_int_from(d, at + 1, source);
        (int_text(value), at + 3, known && possible)
    } else if kind == 1 {
        (float_choice(d[at + 1]), at + 2, known && can_be_drawn(source, at + 1, d[at + 1], 0, 7))
    } else if kind == 2 {
        let (text, possible) = string_from(d, at + 1, source);
        (text, at + 2, known && possible)
    } else if kind == 3 {
        ("path("@ + path_choice(d[at + 1]) + ")"@, at + 2, known && can_be_drawn(source, at + 1, d[at + 1], 0, 5))
    } else if kind == 4 {
        (constant(d[at + 1]), at + 2, known && can_be_drawn(source, at + 1, d[at + 1], 0, 3))
    } else {
        (symbol_name(d[at + 1]), at + 2, known && can_be_drawn(source, at + 1, d[at + 1], 0, 4))
    }
}

/// The function of one expression that a number stands for.
pub open spec fn unary_function(i: int) -> Seq<char> {
    if i == 0 {
        "abs("@
    } else if i == 4 {
        "floor("@
    } else if i == 5 {
        "ceil("@
    } else if i == 6 {
        "int("@
    } else {
        "float("@
    }
}

fn unary_function_text(i: i32) -> (r: &'static str)
    ensures
        r@ == unary_function(i as int),
{
    if i == 0 {
        "abs("
    } else if i == 4 {
        "floor("
    } else if i == 5 {
        "ceil("
    } else if i == 6 {
        "int("
    } else {
        "float("
    }
}

/// A call of a function.
pub open spec fn call_from(d: Seq<int>, at: int, depth: nat, source: Source) -> Reading
    decreases depth, 0nat,
{
    let kind = d[at];
    let known = can_be_drawn(source, at, kind, 0, 12);
    if depth == 0 {
        (seq![], at, false)
    } else if kind == 1 {
        let (x, next, possible) = expr_from(d, at + 1, (depth - 1) as nat, source);
        (
            "round("@ + x + ", "@ + int_text(d[next]) + ")"@,
            next + 1,
            known && possible && is_count(d, next, source),
        )
    } else if kind == 2 || kind == 3 {
        let (x, middle, first) = expr_from(d, at + 1, (depth - 1) as nat, source);
        let (y, next, second) = expr_from(d, middle, (depth - 1) as nat, source);
        let name = if kind == 2 {
            "min("@
        } else {
            "max("@
        };
        (name + x + ", "@ + y + ")"@, next, known && first && second)
    } else if kind == 8 {
        let (text, possible) = string_from(d, at + 1, source);
        ("len("@ + text + ")"@, at + 2, known && possible)
    } else if kind == 9 || kind == 10 {
        let (text, possible) = string_from(d, at + 1, source);
        let name = if kind == 9 {
            "center("@
        } else {
            "split("@
        };
        (
            name + text + ", "@ + int_text(d[at + 2]) + ")"@,
            at + 3,
            known && possible && is_count(d, at + 2, source),
        )
    } else if kind == 11 {
        (
            "path("@ + path_choice(d[at + 1]) + ").name"@,
            at + 2,
            known && can_be_drawn(source, at + 1, d[at + 1], 0, 5),
        )
    } else {
        let (x, next, possible) = expr_from(d, at + 1, (depth - 1) as nat, source);
        (unary_function(kind) + x + ")"@, next, known && possible)
    }
}

/// An expression of at most a depth.
pub open spec fn expr_from(d: Seq<int>, at: int, depth: nat, source: Source) -> Reading
    decreases depth, 1nat,
{
    let kind = d[at];
    let known = can_be_drawn(source, at, kind, 0, 10);
    if depth == 0 {
        atom_from(d, at, source)
    } else if kind <= 4 {
        let op = if kind <= 3 {
            binary_operator(d[at + 1])
        } else {
            comparison_operator(d[at + 1])
        };
        let operators: int = if kind <= 3 {
            7
        } else {
            6
        };
        let (x, middle, first) = expr_from(d, at + 2, (depth - 1) as nat, source);
        let (y, next, second) = expr_from(d, middle, (depth - 1) as nat, source);
        (
            "("@ + x + " "@ + op + " "@ + y + ")"@,
            next,
            known && can_be_drawn(source, at + 1, d[at + 1], 0, operators) && first && second,
        )
    } else if kind == 5 {
        let (x, next, possible) = expr_from(d, at + 1, (depth - 1) as nat, source);
        ("(-"@ + x + ")"@, next, known && possible)
    } else if kind <= 8 {
        let (x, next, possible) = call_from(d, at + 1, depth, source);
        (x, next, known && possible)
    } else {
        let (x, next, possible) = atom_from(d, at + 1, source);
        (x, next, known && possible)
    }
}

/// The value of a symbol.
pub open spec fn symbol_from(d: Seq<int>, at: int, source: Source) -> (JsonView, int, bool) {
    let kind = d[at];
    let known = can_be_drawn(source, at, kind, 0, 3);
    if kind == 0 {
        let (value, possible) = edge_int_from(d, at + 1, source);
        (JsonView::Int(value), at + 3, known && possible)
    } else if kind == 1 {
        (JsonView::Text(string_choice(d[at + 1])), at + 2, known && can_be_drawn(source, at + 1, d[at + 1], 0, 7))
    } else {
        (JsonView::Bool(d[at + 1] == 1), at + 2, known && can_be_drawn(source, at + 1, d[at + 1], 0, 2))
    }
}

/// The values of the first symbols, in the order in which they were drawn.
pub open spec fn symbols_from(d: Seq<int>, at: int, count: nat, source: Source) -> (
    Seq<(Seq<char>, JsonView)>,
    int,
    bool,
)
    decreases count,
{
    if count == 0 {
        (seq![], at, true)
    } else {
        let (before, place, first) = symbols_from(d, at, (count - 1) as nat, source);
        let known = can_be_drawn(source, place, d[place], 0, 2);
        if d[place] == 1 {
            let (value, next, second) = symbol_from(d, place + 1, source);
            (before.push((symbol_name(count - 1), value)), next, first && known && second)
        } else {
            (before, place + 1, first && known)
        }
    }
}

/// How deep the expressions are.
pub const MAX_DEPTH: u32 = 4;

/// Whether a JSON object has the given members, each key once.
pub open spec fn holds_members(object: JsonView, members: Seq<(Seq<char>, JsonView)>) -> bool {
    match object {
        JsonView::Object(entries) => in_key_order(entries) && forall|k: Seq<char>| #[trigger]
            lookup(entries, k) == lookup(members, k),
        _ => false,
    }
}

/// Whether a case is the one read from the numbers drawn from a place on, all
/// of them were needed for it, and each can be drawn where it was from the source.
pub open spec fn case_read(case: CaseView, d: Seq<int>, at: int, source: Source) -> bool {
    let (expr, place, first) = expr_from(d, at, MAX_DEPTH as nat, source);
    let attached = d[place] == 1;
    let (members, after, second) = if attached {
        symbols_from(d, place + 1, 4, source)
    } else {
        (seq![], place + 1, true)
    };
    &&& first && can_be_drawn(source, place, d[place], 0, 2) && second && can_be_drawn(source, after, d[after], 0, 3)
    &&& d.len() == after + 1
    &&& case.expr == expr
    &&& match case.symbols {
        Some(object) => attached && holds_members(object, members),
        None => !attached,
    }
    &&& case.path_format == (if d[after] == 0 {
        Some("POSIX"@)
    } else if d[after] == 1 {
        Some("WINDOWS"@)
    } else {
        None
    })
}

/// Whether numbers go on from others.
pub open spec fn continues(longer: Seq<int>, shorter: Seq<int>) -> bool {
    &&& shorter.len() <= longer.len()
    &&& longer.take(shorter.len() as int) == shorter
}

proof fn lemma_continued_at(longer: Seq<int>, shorter: Seq<int>)
    requires
        continues(longer, shorter),
    ensures
        forall|i: int| 0 <= i < shorter.len() ==> #[trigger] longer[i] == shorter[i],
{
    assert forall|i: int| 0 <= i < shorter.len() implies #[trigger] longer[i] == shorter[i] by {
        assert(longer.take(shorter.len() as int)[i] == longer[i]);
    }
}

proof fn lemma_continues_on(a: Seq<int>, b: Seq<int>, c: Seq<int>)
    requires
        continues(b, a),
        continues(c, b),
    ensures
        continues(c, a),
{
    assert(c.take(a.len() as int) =~= b.take(a.len() as int));
}

/// Reading goes forward.
proof fn lemma_reading_goes_on(d: Seq<int>, at: int, depth: nat, source: Source)
    ensures
        expr_from(d, at, depth, source).1 > at,
        depth > 0 ==> call_from(d, at, depth, source).1 > at,
    decreases depth,
{
    if depth > 0 {
        let less = (depth - 1) as nat;
        lemma_reading_goes_on(d, at + 1, less, source);
        lemma_reading_goes_on(d, expr_from(d, at + 1, less, source).1, less, source);
        lemma_reading_goes_on(d, at + 2, less, source);
        lemma_reading_goes_on(d, expr_from(d, at + 2, less, source).1, less, source);
        assert(call_from(d, at + 1, depth, source).1 > at + 1);
    }
}

proof fn lemma_same_atom(longer: Seq<int>, shorter: Seq<int>, at: int, source: Source)
    requires
        continues(longer, shorter),
        0 <= at,
        atom_from(shorter, at, source).1 <= shorter.len(),
    ensures
        atom_from(longer, at, source) == atom_from(shorter, at, source),
{
    lemma_continued_at(longer, shorter);
}

proof fn lemma_same_call(longer: Seq<int>, shorter: Seq<int>, at: int, depth: nat, source: Source)
    requires
        continues(longer, shorter),
        0 <= at,
        0 < depth,
        call_from(shorter, at, depth, source).1 <= shorter.len(),
    ensures
        call_from(longer, at, depth, source) == call_from(shorter, at, depth, source),
    decreases depth, 0nat,
{
    lemma_continued_at(longer, shorter);
    lemma_reading_goes_on(shorter, at, depth, source);
    let less = (depth - 1) as nat;
    let kind = shorter[at];
    if kind == 2 || kind == 3 {
        let middle = expr_from(shorter, at + 1, less, source).1;
        lemma_reading_goes_on(shorter, at + 1, less, source);
        lemma_reading_goes_on(shorter, middle, less, source);
        lemma_same_expr(longer, shorter, at + 1, less, source);
        lemma_same_expr(longer, shorter, middle, less, source);
    } else if kind == 1 || !(8 <= kind <= 11) {
        lemma_reading_goes_on(shorter, at + 1, less, source);
        lemma_same_expr(longer, shorter, at + 1, less, source);
    }
}

proof fn lemma_same_expr(longer: Seq<int>, shorter: Seq<int>, at: int, depth: nat, source: Source)
    requires
        continues(longer, shorter),
        0 <= at,
        expr_from(shorter, at, depth, source).1 <= shorter.len(),
    ensures
        expr_from(longer, at, depth, source) == expr_from(shorter, at, depth, source),
    decreases depth, 1nat,
{
    lemma_continued_at(longer, shorter);
    lemma_reading_goes_on(shorter, at, depth, source);
    let kind = shorter[at];
    if depth == 0 {
        lemma_same_atom(longer, shorter, at, source);
    } else {
        let less = (depth - 1) as nat;
        if kind <= 4 {
            let middle = expr_from(shorter, at + 2, less, source).1;
            lemma_reading_goes_on(shorter, at + 2, less, source);
            lemma_reading_goes_on(shorter, middle, less, source);
            lemma_same_expr(longer, shorter, at + 2, less, source);
            lemma_same_expr(longer, shorter, middle, less, source);
        } else if kind == 5 {
            lemma_reading_goes_on(shorter, at + 1, less, source);
            lemma_same_expr(longer, shorter, at + 1, less, source);
        } else if kind <= 8 {
            lemma_reading_goes_on(shorter, at + 1, depth, source);
            lemma_same_call(longer, shorter, at + 1, depth, source);
        } else {
            lemma_same_atom(longer, shorter, at + 1, source);
        }
    }
}

/// What is drawn later does not change what was read before: an expression
/// depends on no more than the numbers that were drawn for it.
pub proof fn expressions_depend_on_their_own_draws(
    longer: Seq<int>,
    shorter: Seq<int>,
    at: int,
    depth: nat,
    source: Source,
)
    requires
        continues(longer, shorter),
        0 <= at,
        expr_from(shorter, at, depth, source).1 <= shorter.len(),
    ensures
        expr_from(longer, at, depth, source) == expr_from(shorter, at, depth, source),
{
    lemma_same_expr(longer, shorter, at, depth, source);
}

fn edge_int<C: Choices>(c: &mut C) -> (r: i64)
    ensures
        continues(final(c).drawn(), old(c).drawn()),
        final(c).source() == old(c).source(),
        final(c).drawn().len() == old(c).drawn().len() + 2,
        (r as int, true) == edge_int_from(final(c).drawn(), old(c).drawn().len() as int, old(c).source()),
{
    let r = if c.chance(6, 10) {
        edge_value(c.place(9))
    } else {
        c.integer(-1000, 1000)
    };
    assert(c.drawn().take(old(c).drawn().len() as int) =~= old(c).drawn());
    r
}

fn count_int<C: Choices>(c: &mut C) -> (r: i64)
    ensures
        final(c).drawn() == old(c).drawn().push(r as int),
        final(c).source() == old(c).source(),
        can_be_drawn(old(c).source(), old(c).drawn().len() as int, r as int, -8, 12),
{
    c.integer(-8, 12)
}

fn string_literal<C: Choices>(c: &mut C) -> (r: String)
    ensures
        continues(final(c).drawn(), old(c).drawn()),
        final(c).source() == old(c).source(),
        final(c).drawn().len() == old(c).drawn().len() + 1,
        (r@, true) == string_from(final(c).drawn(), old(c).drawn().len() as int, old(c).source()),
{
    let mut r = "'".to_owned();
    r.append(string_choice_text(c.place(7)));
    r.append("'");
    assert(c.drawn().take(old(c).drawn().len() as int) =~= old(c).drawn());
    r
}

fn atom<C: Choices>(c: &mut C) -> (r: String)
    ensures
        continues(final(c).drawn(), old(c).drawn()),
        final(c).source() == old(c).source(),
        (r@, final(c).drawn().len() as int, true) == atom_from(
            final(c).drawn(),
            old(c).drawn().len() as int,
            old(c).source(),
        ),
{
    let ghost source = c.source();
    let ghost start = c.drawn();
    let kind = c.alternative(6);
    let ghost first = c.drawn();
    assert(continues(first, start)) by {
        assert(first.take(start.len() as int) =~= start);
    }
    let mut r = String::new();
    if kind == 0 {
        push_int(&mut r, edge_int(c));
    } else if kind == 1 {
        r.append(float_choice_text(c.place(7)));
    } else if kind == 2 {
        r = string_literal(c);
    } else if kind == 3 {
        r.append("path(");
        r.append(path_choice_text(c.place(5)));
        r.append(")");
    } else if kind == 4 {
        r.append(constant_text(c.place(3)));
    } else {
        r.append(symbol_name_text(c.place(4)));
    }
    proof {
        assert(continues(c.drawn(), first)) by {
            assert(c.drawn().take(first.len() as int) =~= first);
        }
        lemma_continues_on(start, first, c.drawn());
        lemma_continued_at(c.drawn(), first);
        assert(c.drawn()[start.len() as int] == kind);
        assert(r@ =~= atom_from(c.drawn(), start.len() as int, source).0);
    }
    r
}

fn call<C: Choices>(c: &mut C, depth: u32) -> (r: String)
    requires
        0 < depth,
    ensures
        continues(final(c).drawn(), old(c).drawn()),
        final(c).source() == old(c).source(),
        (r@, final(c).drawn().len() as int, true) == call_from(
            final(c).drawn(),
            old(c).drawn().len() as int,
            depth as nat,
            old(c).source(),
        ),
    decreases depth, 0nat,
{
    let ghost source = c.source();
    let ghost start = c.drawn();
    let kind = c.alternative(12);
    let ghost first = c.drawn();
    assert(continues(first, start)) by {
        assert(first.take(start.len() as int) =~= start);
    }
    let mut r = String::new();
    if kind == 1 {
        r.append("round(");
        let x = expr(c, depth - 1);
        let ghost second = c.drawn();
        r.append(x.as_str());
        r.append(", ");
        push_int(&mut r, count_int(c));
        r.append(")");
        proof {
            assert(continues(c.drawn(), second)) by {
                assert(c.drawn().take(second.len() as int) =~= second);
            }
            lemma_same_expr(c.drawn(), second, first.len() as int, (depth - 1) as nat, source);
            lemma_continues_on(first, second, c.drawn());
        }
    } else if kind == 2 || kind == 3 {
        if kind == 2 {
            r.append("min(");
        } else {
            r.append("max(");
        }
        let x = expr(c, depth - 1);
        let ghost second = c.drawn();
        r.append(x.as_str());
        r.append(", ");
        let y = expr(c, depth - 1);
        r.append(y.as_str());
        r.append(")");
        proof {
            lemma_same_expr(c.drawn(), second, first.len() as int, (depth - 1) as nat, source);
            lemma_continues_on(first, second, c.drawn());
        }
    } else if kind == 8 {
        r.append("len(");
        r.append(string_literal(c).as_str());
        r.append(")");
    } else if kind == 9 || kind == 10 {
        if kind == 9 {
            r.append("center(");
        } else {
            r.append("split(");
        }
        let x = string_literal(c);
        let ghost second = c.drawn();
        r.append(x.as_str());
        r.append(", ");
        push_int(&mut r, count_int(c));
        r.append(")");
        proof {
            assert(continues(c.drawn(), second)) by {
                assert(c.drawn().take(second.len() as int) =~= second);
            }
            lemma_continued_at(c.drawn(), second);
            lemma_continues_on(first, second, c.drawn());
        }
    } else if kind == 11 {
        r.append("path(");
        r.append(path_choice_text(c.place(5)));
        r.append(").name");
        assert(continues(c.drawn(), first)) by {
            assert(c.drawn().take(first.len() as int) =~= first);
        }
    } else {
        r.append(unary_function_text(kind));
        let x = expr(c, depth - 1);
        r.append(x.as_str());
        r.append(")");
    }
    proof {
        lemma_continues_on(start, first, c.drawn());
        lemma_continued_at(c.drawn(), first);
        assert(c.drawn()[start.len() as int] == kind);
        assert(r@ =~= call_from(c.drawn(), start.len() as int, depth as nat, source).0);
    }
    r
}

fn expr<C: Choices>(c: &mut C, depth: u32) -> (r: String)
    ensures
        continues(final(c).drawn(), old(c).drawn()),
        final(c).source() == old(c).source(),
        (r@, final(c).drawn().len() as int, true) == expr_from(
            final(c).drawn(),
            old(c).drawn().len() as int,
            depth as nat,
            old(c).source(),
        ),
    decreases depth, 1nat,
{
    let ghost source = c.source();
    if depth == 0 {
        return atom(c);
    }
    let ghost start = c.drawn();
    let kind = c.alternative(10);
    let ghost first = c.drawn();
    assert(continues(first, start)) by {
        assert(first.take(start.len() as int) =~= start);
    }
    let mut r = String::new();
    if kind <= 4 {
        let op = if kind <= 3 {
            binary_operator_text(c.place(7))
        } else {
            comparison_operator_text(c.place(6))
        };
        let ghost second = c.drawn();
        assert(continues(second, first)) by {
            assert(second.take(first.len() as int) =~= first);
        }
        let x = expr(c, depth - 1);
        let ghost third = c.drawn();
        let y = expr(c, depth - 1);
        r.append("(");
        r.append(x.as_str());
        r.append(" ");
        r.append(op);
        r.append(" ");
        r.append(y.as_str());
        r.append(")");
        proof {
            lemma_same_expr(c.drawn(), third, second.len() as int, (depth - 1) as nat, source);
            lemma_continues_on(first, second, third);
            lemma_continues_on(first, third, c.drawn());
            lemma_continues_on(second, third, c.drawn());
            lemma_continued_at(c.drawn(), second);
        }
    } else if kind == 5 {
        r.append("(-");
        let x = expr(c, depth - 1);
        r.append(x.as_str());
        r.append(")");
    } else if kind <= 8 {
        r = call(c, depth);
    } else {
        r = atom(c);
    }
    proof {
        lemma_continues_on(start, first, c.drawn());
        lemma_continued_at(c.drawn(), first);
        assert(c.drawn()[start.len() as int] == kind);
        assert(r@ =~= expr_from(c.drawn(), start.len() as int, depth as nat, source).0);
    }
    r
}

/// The names of the symbols differ.
proof fn lemma_symbol_names_differ(i: int, j: int)
    requires
        0 <= i < 4,
        0 <= j < 4,
        i != j,
    ensures
        symbol_name(i) != symbol_name(j),
{
    reveal_strlit("N");
    reveal_strlit("Param.Count");
    reveal_strlit("S");
    reveal_strlit("P");
    assert("N"@[0] == 'N' && "S"@[0] == 'S' && "P"@[0] == 'P');
    assert("N"@.len() == 1 && "S"@.len() == 1 && "P"@.len() == 1 && "Param.Count"@.len() == 11);
}

/// Each of the first symbols has at most one value.
proof fn lemma_symbols_drawn(d: Seq<int>, at: int, count: nat, source: Source)
    requires
        count <= 4,
    ensures
        symbols_from(d, at, count, source).1 >= at,
        forall|j: int|
            0 <= j < symbols_from(d, at, count, source).0.len() ==> exists|i: int|
                0 <= i < count && (#[trigger] symbols_from(d, at, count, source).0[j]).0 == symbol_name(i),
    decreases count,
{
    if count > 0 {
        let less = (count - 1) as nat;
        lemma_symbols_drawn(d, at, less, source);
        let before = symbols_from(d, at, less, source).0;
        let now = symbols_from(d, at, count, source).0;
        assert forall|j: int| 0 <= j < now.len() implies exists|i: int|
            0 <= i < count && (#[trigger] now[j]).0 == symbol_name(i) by {
            if j < before.len() {
                assert(now[j] == before[j]);
                let i = choose|i: int| 0 <= i < less && before[j].0 == symbol_name(i);
                assert(now[j].0 == symbol_name(i));
            } else {
                assert(now[j].0 == symbol_name(count - 1));
            }
        }
    }
}

proof fn lemma_symbol_is_new(d: Seq<int>, at: int, count: nat, source: Source)
    requires
        count < 4,
    ensures
        lookup(symbols_from(d, at, count, source).0, symbol_name(count as int)) is None,
{
    lemma_symbols_drawn(d, at, count, source);
    let members = symbols_from(d, at, count, source).0;
    assert forall|j: int| 0 <= j < members.len() implies #[trigger] members[j].0 != symbol_name(
        count as int,
    ) by {
        let i = choose|i: int| 0 <= i < count && members[j].0 == symbol_name(i);
        lemma_symbol_names_differ(i, count as int);
    }
    lemma_key_missing(members, symbol_name(count as int));
}

proof fn lemma_same_symbols(longer: Seq<int>, shorter: Seq<int>, at: int, count: nat, source: Source)
    requires
        continues(longer, shorter),
        0 <= at,
        count <= 4,
        symbols_from(shorter, at, count, source).1 <= shorter.len(),
    ensures
        symbols_from(longer, at, count, source) == symbols_from(shorter, at, count, source),
    decreases count,
{
    lemma_continued_at(longer, shorter);
    if count > 0 {
        let less = (count - 1) as nat;
        lemma_symbols_drawn(shorter, at, less, source);
        lemma_same_symbols(longer, shorter, at, less, source);
    }
}

fn symbol_value<C: Choices>(c: &mut C) -> (r: JsonValue)
    ensures
        continues(final(c).drawn(), old(c).drawn()),
        final(c).source() == old(c).source(),
        (r@, final(c).drawn().len() as int, true) == symbol_from(
            final(c).drawn(),
            old(c).drawn().len() as int,
            old(c).source(),
        ),
{
    let ghost start = c.drawn();
    let kind = c.alternative(3);
    let ghost first = c.drawn();
    assert(continues(first, start)) by {
        assert(first.take(start.len() as int) =~= start);
    }
    let r = if kind == 0 {
        JsonValue::Int(edge_int(c))
    } else if kind == 1 {
        JsonValue::Text(string_choice_text(c.place(7)).to_owned())
    } else {
        JsonValue::Bool(c.coin())
    };
    proof {
        assert(continues(c.drawn(), first)) by {
            assert(c.drawn().take(first.len() as int) =~= first);
        }
        lemma_continues_on(start, first, c.drawn());
        lemma_continued_at(c.drawn(), first);
        assert(c.drawn()[start.len() as int] == kind);
    }
    r
}

fn symbols<C: Choices>(c: &mut C) -> (r: JsonValue)
    ensures
        continues(final(c).drawn(), old(c).drawn()),
        final(c).source() == old(c).source(),
        holds_members(
            r@,
            symbols_from(final(c).drawn(), old(c).drawn().len() as int, 4, old(c).source()).0,
        ),
        final(c).drawn().len() == symbols_from(final(c).drawn(), old(c).drawn().len() as int, 4, old(c).source()).1,
        symbols_from(final(c).drawn(), old(c).drawn().len() as int, 4, old(c).source()).2,
{
    let ghost source = c.source();
    let ghost start = c.drawn();
    let ghost at = start.len() as int;
    let mut object = JsonObject::new();
    let mut i: usize = 0;
    assert(start.take(at) =~= start);
    while i < 4
        invariant
            i <= 4,
            at == start.len(),
            c.source() == source,
            continues(c.drawn(), start),
            c.drawn().len() == symbols_from(c.drawn(), at, i as nat, source).1,
            symbols_from(c.drawn(), at, i as nat, source).2,
            in_key_order(object@),
            forall|k: Seq<char>| #[trigger]
                lookup(object@, k) == lookup(symbols_from(c.drawn(), at, i as nat, source).0, k),
        decreases 4 - i,
    {
        let ghost before = c.drawn();
        let ghost members = symbols_from(before, at, i as nat, source).0;
        let present = c.chance(6, 10);
        let ghost asked = c.drawn();
        proof {
            assert(continues(asked, before)) by {
                assert(asked.take(before.len() as int) =~= before);
            }
            lemma_same_symbols(asked, before, at, i as nat, source);
            lemma_continues_on(start, before, asked);
        }
        if present {
            let value = symbol_value(c);
            proof {
                lemma_continues_on(before, asked, c.drawn());
                lemma_continues_on(start, before, c.drawn());
                lemma_same_symbols(c.drawn(), before, at, i as nat, source);
                lemma_continued_at(c.drawn(), asked);
                lemma_symbol_is_new(before, at, i as nat, source);
                lemma_key_pushed(members, symbol_name(i as int), value@);
                assert(symbols_from(c.drawn(), at, (i + 1) as nat, source).0 == members.push(
                    (symbol_name(i as int), value@),
                ));
            }
            object.insert(symbol_name_text(i).to_owned(), value);
        } else {
            assert(symbols_from(c.drawn(), at, (i + 1) as nat, source).0 == members);
        }
        i = i + 1;
    }
    JsonValue::Object(object)
}

fn draw_case<C: Choices>(c: &mut C) -> (r: ExprCase)
    ensures
        continues(final(c).drawn(), old(c).drawn()),
        final(c).source() == old(c).source(),
        case_read(r@, final(c).drawn(), old(c).drawn().len() as int, old(c).source()),
{
    let ghost source = c.source();
    let ghost start = c.drawn();
    let ghost at = start.len() as int;
    let text = expr(c, MAX_DEPTH);
    let ghost read = c.drawn();
    let mut case = ExprCase::new(text);
    let attached = c.chance(3, 10);
    let ghost asked = c.drawn();
    proof {
        assert(continues(asked, read)) by {
            assert(asked.take(read.len() as int) =~= read);
        }
        lemma_same_expr(asked, read, at, MAX_DEPTH as nat, source);
        lemma_continues_on(start, read, asked);
    }
    if attached {
        case = case.with_symbols(symbols(c));
    }
    let ghost named = c.drawn();
    proof {
        if !attached {
            assert(named.take(asked.len() as int) =~= asked);
        }
        assert(continues(named, asked));
        lemma_continues_on(read, asked, named);
        lemma_continues_on(start, read, named);
    }
    let format = c.alternative(3);
    proof {
        let d = c.drawn();
        assert(continues(d, named)) by {
            assert(d.take(named.len() as int) =~= named);
        }
        lemma_continues_on(asked, named, d);
        lemma_continues_on(read, named, d);
        lemma_continues_on(start, named, d);
        lemma_same_expr(d, read, at, MAX_DEPTH as nat, source);
        lemma_continued_at(d, asked);
        if attached {
            lemma_same_symbols(d, named, asked.len() as int, 4, source);
        }
    }
    if format == 0 {
        case.with_path_format("POSIX".to_owned())
    } else if format == 1 {
        case.with_path_format("WINDOWS".to_owned())
    } else {
        case
    }
}

/// The case that these choices lead to. Each number drawn for it is the one
/// written down for its place, where that is possible there.
pub fn replayed_case(choices: &mut ReplayedChoices) -> (r: ExprCase)
    ensures
        final(choices).numbers() == old(choices).numbers(),
        continues(final(choices).drawn(), old(choices).drawn()),
        case_read(
            r@,
            final(choices).drawn(),
            old(choices).drawn().len() as int,
            Some(old(choices).numbers()),
        ),
{
    draw_case(choices)
}

/// Calls read from the same numbers written down are the same.
proof fn lemma_calls_repeat(d: Seq<int>, e: Seq<int>, at: int, depth: nat, numbers: Seq<i64>)
    requires
        0 < depth,
        call_from(d, at, depth, Some(numbers)).2,
        call_from(e, at, depth, Some(numbers)).2,
    ensures
        call_from(d, at, depth, Some(numbers)) == call_from(e, at, depth, Some(numbers)),
    decreases depth, 0nat,
{
    let source = Some(numbers);
    let less = (depth - 1) as nat;
    let kind = d[at];
    assert(e[at] == kind);
    if kind == 2 || kind == 3 {
        lemma_expressions_repeat(d, e, at + 1, less, numbers);
        lemma_expressions_repeat(d, e, expr_from(d, at + 1, less, source).1, less, numbers);
    } else if kind == 1 || !(8 <= kind <= 11) {
        lemma_expressions_repeat(d, e, at + 1, less, numbers);
    }
}

/// Expressions read from the same numbers written down are the same.
proof fn lemma_expressions_repeat(d: Seq<int>, e: Seq<int>, at: int, depth: nat, numbers: Seq<i64>)
    requires
        expr_from(d, at, depth, Some(numbers)).2,
        expr_from(e, at, depth, Some(numbers)).2,
    ensures
        expr_from(d, at, depth, Some(numbers)) == expr_from(e, at, depth, Some(numbers)),
    decreases depth, 1nat,
{
    let source = Some(numbers);
    let kind = d[at];
    assert(e[at] == kind);
    if depth > 0 {
        let less = (depth - 1) as nat;
        if kind <= 4 {
            lemma_expressions_repeat(d, e, at + 2, less, numbers);
            lemma_expressions_repeat(d, e, expr_from(d, at + 2, less, source).1, less, numbers);
        } else if kind == 5 {
            lemma_expressions_repeat(d, e, at + 1, less, numbers);
        } else if kind <= 8 {
            lemma_calls_repeat(d, e, at + 1, depth, numbers);
        }
    }
}

/// Symbols read from the same numbers written down are the same.
proof fn lemma_symbols_repeat(d: Seq<int>, e: Seq<int>, at: int, count: nat, numbers: Seq<i64>)
    requires
        symbols_from(d, at, count, Some(numbers)).2,
        symbols_from(e, at, count, Some(numbers)).2,
    ensures
        symbols_from(d, at, count, Some(numbers)) == symbols_from(e, at, count, Some(numbers)),
    decreases count,
{
    if count > 0 {
        lemma_symbols_repeat(d, e, at, (count - 1) as nat, numbers);
    }
}

/// Numbers written down lead to one case, whenever they are replayed.
pub proof fn replays_repeat(
    a: CaseView,
    b: CaseView,
    d: Seq<int>,
    e: Seq<int>,
    at: int,
    numbers: Seq<i64>,
)
    requires
        case_read(a, d, at, Some(numbers)),
        case_read(b, e, at, Some(numbers)),
    ensures
        a == b,
        d.len() == e.len(),
{
    lemma_expressions_repeat(d, e, at, MAX_DEPTH as nat, numbers);
    let place = expr_from(d, at, MAX_DEPTH as nat, Some(numbers)).1;
    if d[place] == 1 {
        lemma_symbols_repeat(d, e, place + 1, 4, numbers);
        ordered_members_are_determined(a.symbols->0->Object_0, b.symbols->0->Object_0);
    }
}

/// A generator of cases from random numbers of a seed.
pub struct Generator {
    choices: RandomChoices,
}

impl Generator {
    pub closed spec fn drawn(self) -> Seq<int> {
        self.choices.drawn()
    }

    pub fn new(seed: u64) -> (r: Generator)
        ensures
            r.drawn() == Seq::<int>::empty(),
    {
        Generator { choices: RandomChoices::new(seed) }
    }

    /// The next case: an expression, sometimes with symbols, sometimes with a
    /// path format.
    pub fn next_case(&mut self) -> (r: ExprCase)
        ensures
            continues(final(self).drawn(), old(self).drawn()),
            case_read(r@, final(self).drawn(), old(self).drawn().len() as int, None),
    {
        draw_case(&mut self.choices)
    }
}

} // verus!
