//! The disagreements that are intended.

use vstd::hash_map::StringHashMap;
use vstd::prelude::*;

verus! {

/// One intended disagreement.
#[derive(Debug)]
pub struct AllowedDivergence {
    /// The expression that it excuses.
    pub input: String,
    /// Why the two sides may differ on it.
    pub reason: String,
    /// Where the decision is recorded.
    pub reference: Option<String>,
}

/// The entries by their inputs. Of two entries on one input the later counts.
pub open spec fn by_input(entries: Seq<AllowedDivergence>) -> Map<Seq<char>, AllowedDivergence>
    decreases entries.len(),
{
    if entries.len() == 0 {
        Map::empty()
    } else {
        by_input(entries.drop_last()).insert(entries.last().input@, entries.last())
    }
}

/// The intended disagreements by their inputs.
pub struct Allowlist {
    by_input: StringHashMap<AllowedDivergence>,
}

impl View for Allowlist {
    type V = Map<Seq<char>, AllowedDivergence>;

    closed spec fn view(&self) -> Map<Seq<char>, AllowedDivergence> {
        self.by_input@
    }
}

impl Default for Allowlist {
    fn default() -> (r: Allowlist)
        ensures
            r@ == Map::<Seq<char>, AllowedDivergence>::empty(),
    {
        Allowlist { by_input: StringHashMap::new() }
    }
}

impl Allowlist {
    /// The list of these entries.
    pub fn from_entries(entries: Vec<AllowedDivergence>) -> (r: Allowlist)
        ensures
            r@ == by_input(entries@),
    {
        let ghost all = entries@;
        let mut entries = entries;
        let mut map: StringHashMap<AllowedDivergence> = StringHashMap::new();
        assert(by_input(all).union_prefer_right(map@) =~= by_input(all));
        while entries.len() > 0
            invariant
                by_input(entries@).union_prefer_right(map@) == by_input(all),
            decreases entries@.len(),
        {
            let ghost left = entries@.drop_last();
            let ghost before = map@;
            let ghost last = entries@.last();
            match entries.pop() {
                Some(entry) => {
                    if !map.contains_key(entry.input.as_str()) {
                        map.insert(entry.input.clone(), entry);
                    }
                },
                None => {},
            }
            assert(by_input(left).union_prefer_right(map@) =~= by_input(left).insert(
                last.input@,
                last,
            ).union_prefer_right(before));
        }
        assert(by_input(entries@).union_prefer_right(map@) =~= map@);
        Allowlist { by_input: map }
    }

    /// The entry that excuses an input.
    pub fn is_allowed(&self, input: &str) -> (r: Option<&AllowedDivergence>)
        ensures
            match r {
                Some(entry) => self@.contains_key(input@) && *entry == self@[input@],
                None => !self@.contains_key(input@),
            },
    {
        self.by_input.get(input)
    }

    /// The number of inputs.
    pub fn len(&self) -> (r: usize)
        ensures
            r == self@.len(),
    {
        self.by_input.len()
    }

    /// Whether nothing is excused.
    pub fn is_empty(&self) -> (r: bool)
        ensures
            r == (self@.len() == 0),
    {
        self.by_input.len() == 0
    }
}

/// An input is excused if and only if an entry names it, and then by an entry
/// on that input.
pub proof fn only_listed_inputs_are_excused(entries: Seq<AllowedDivergence>, input: Seq<char>)
    ensures
        by_input(entries).contains_key(input) <==> exists|i: int|
            0 <= i < entries.len() && (#[trigger] entries[i]).input@ == input,
        by_input(entries).contains_key(input) ==> by_input(entries)[input].input@ == input,
    decreases entries.len(),
{
    if entries.len() > 0 {
        let before = entries.drop_last();
        only_listed_inputs_are_excused(before, input);
        if entries.last().input@ == input {
            assert(entries[entries.len() - 1].input@ == input);
        } else if by_input(before).contains_key(input) {
            let i = choose|i: int| 0 <= i < before.len() && (#[trigger] before[i]).input@ == input;
            assert(entries[i].input@ == input);
        } else {
            assert forall|i: int| 0 <= i < entries.len() implies (#[trigger] entries[i]).input@
                != input by {
                if i < before.len() {
                    assert(before[i].input@ != input);
                }
            }
        }
    }
}

/// Of the entries on one input the last one counts.
pub proof fn last_entry_counts(entries: Seq<AllowedDivergence>, i: int)
    requires
        0 <= i < entries.len(),
        forall|j: int| i < j < entries.len() ==> (#[trigger] entries[j]).input@ != entries[i].input@,
    ensures
        by_input(entries).contains_key(entries[i].input@),
        by_input(entries)[entries[i].input@] == entries[i],
    decreases entries.len(),
{
    if i < entries.len() - 1 {
        let before = entries.drop_last();
        assert forall|j: int| i < j < before.len() implies (#[trigger] before[j]).input@
            != before[i].input@ by {
            assert(entries[j].input@ != entries[i].input@);
        }
        last_entry_counts(before, i);
        assert(entries[entries.len() - 1].input@ != entries[i].input@);
    }
}

} // verus!
