//! Entries found by a key.

use vstd::prelude::*;

verus! {

/// The value of the first entry with a key.
pub open spec fn lookup<V>(entries: Seq<(Seq<char>, V)>, key: Seq<char>) -> Option<V>
    decreases entries.len(),
{
    if entries.len() == 0 {
        None
    } else if entries[0].0 == key {
        Some(entries[0].1)
    } else {
        lookup(entries.skip(1), key)
    }
}

/// The first entry with a key gives its value.
pub proof fn lemma_key_found<V>(entries: Seq<(Seq<char>, V)>, key: Seq<char>, i: int)
    requires
        0 <= i < entries.len(),
        entries[i].0 == key,
        forall|j: int| 0 <= j < i ==> #[trigger] entries[j].0 != key,
    ensures
        lookup(entries, key) == Some(entries[i].1),
    decreases i,
{
    if i > 0 {
        assert(entries[0].0 != key);
        let rest = entries.skip(1);
        assert forall|j: int| 0 <= j < i - 1 implies #[trigger] rest[j].0 != key by {
            assert(rest[j] == entries[j + 1]);
        }
        lemma_key_found(rest, key, i - 1);
    }
}

/// A key without an entry has no value.
pub proof fn lemma_key_missing<V>(entries: Seq<(Seq<char>, V)>, key: Seq<char>)
    requires
        forall|j: int| 0 <= j < entries.len() ==> #[trigger] entries[j].0 != key,
    ensures
        lookup(entries, key) is None,
    decreases entries.len(),
{
    if entries.len() > 0 {
        assert(entries[0].0 != key);
        let rest = entries.skip(1);
        assert forall|j: int| 0 <= j < rest.len() implies #[trigger] rest[j].0 != key by {
            assert(rest[j] == entries[j + 1]);
        }
        lemma_key_missing(rest, key);
    }
}

/// The value of a key is that of the first entry with it.
pub proof fn lemma_key_by_position<V>(entries: Seq<(Seq<char>, V)>, key: Seq<char>)
    ensures
        match lookup(entries, key) {
            Some(v) => exists|i: int|
                0 <= i < entries.len() && (#[trigger] entries[i]) == (key, v) && forall|j: int|
                    0 <= j < i ==> (#[trigger] entries[j]).0 != key,
            None => forall|j: int| 0 <= j < entries.len() ==> (#[trigger] entries[j]).0 != key,
        },
    decreases entries.len(),
{
    if entries.len() > 0 && entries[0].0 != key {
        let rest = entries.skip(1);
        lemma_key_by_position(rest, key);
        match lookup(rest, key) {
            Some(v) => {
                let i = choose|i: int|
                    0 <= i < rest.len() && (#[trigger] rest[i]) == (key, v) && forall|j: int|
                        0 <= j < i ==> (#[trigger] rest[j]).0 != key;
                assert(entries[i + 1] == (key, v));
                assert forall|j: int| 0 <= j < i + 1 implies (#[trigger] entries[j]).0 != key by {
                    if j > 0 {
                        assert(rest[j - 1] == entries[j]);
                    }
                }
            },
            None => {
                assert forall|j: int| 0 <= j < entries.len() implies (#[trigger] entries[j]).0 != key by {
                    if j > 0 {
                        assert(rest[j - 1] == entries[j]);
                    }
                }
            },
        }
    } else if entries.len() > 0 {
        assert(entries[0] == (key, entries[0].1));
    }
}

/// One more entry with a new key.
pub proof fn lemma_key_pushed<V>(entries: Seq<(Seq<char>, V)>, key: Seq<char>, value: V)
    requires
        lookup(entries, key) is None,
    ensures
        forall|k: Seq<char>| #[trigger]
            lookup(entries.push((key, value)), k) == (if k == key {
                Some(value)
            } else {
                lookup(entries, k)
            }),
{
    let longer = entries.push((key, value));
    assert forall|k: Seq<char>| #[trigger]
        lookup(longer, k) == (if k == key {
            Some(value)
        } else {
            lookup(entries, k)
        }) by {
        lemma_key_by_position(entries, k);
        match lookup(entries, k) {
            Some(v) => {
                let i = choose|i: int|
                    0 <= i < entries.len() && (#[trigger] entries[i]) == (k, v) && forall|j: int|
                        0 <= j < i ==> (#[trigger] entries[j]).0 != k;
                assert(longer[i] == entries[i]);
                assert forall|j: int| 0 <= j < i implies #[trigger] longer[j].0 != k by {
                    assert(entries[j].0 != k);
                }
                lemma_key_found(longer, k, i);
            },
            None => {
                assert forall|j: int| 0 <= j < entries.len() implies #[trigger] longer[j].0 != k by {
                    assert(longer[j] == entries[j]);
                    assert(entries[j].0 != k);
                }
                if k == key {
                    lemma_key_found(longer, k, entries.len() as int);
                } else {
                    lemma_key_missing(longer, k);
                }
            },
        }
    }
}

/// The first entry with a key replaced.
pub proof fn lemma_key_replaced<V>(entries: Seq<(Seq<char>, V)>, at: int, key: Seq<char>, value: V)
    requires
        0 <= at < entries.len(),
        entries[at].0 == key,
        forall|j: int| 0 <= j < at ==> #[trigger] entries[j].0 != key,
    ensures
        forall|k: Seq<char>| #[trigger]
            lookup(entries.update(at, (key, value)), k) == (if k == key {
                Some(value)
            } else {
                lookup(entries, k)
            }),
{
    let changed = entries.update(at, (key, value));
    assert forall|k: Seq<char>| #[trigger]
        lookup(changed, k) == (if k == key {
            Some(value)
        } else {
            lookup(entries, k)
        }) by {
        if k == key {
            assert forall|j: int| 0 <= j < at implies #[trigger] changed[j].0 != k by {
                assert(entries[j].0 != k);
            }
            lemma_key_found(changed, k, at);
        } else {
            lemma_key_by_position(entries, k);
            match lookup(entries, k) {
                Some(v) => {
                    let i = choose|i: int|
                        0 <= i < entries.len() && (#[trigger] entries[i]) == (k, v) && forall|j: int|
                            0 <= j < i ==> (#[trigger] entries[j]).0 != k;
                    assert forall|j: int| 0 <= j < i implies #[trigger] changed[j].0 != k by {
                        assert(entries[j].0 != k);
                    }
                    lemma_key_found(changed, k, i);
                },
                None => {
                    assert forall|j: int| 0 <= j < changed.len() implies #[trigger] changed[j].0 != k by {
                        assert(entries[j].0 != k);
                    }
                    lemma_key_missing(changed, k);
                },
            }
        }
    }
}

} // verus!
