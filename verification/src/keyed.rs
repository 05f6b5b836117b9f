//! Sequences of entries keyed by text, kept in strictly increasing key
//! order: the shape shared by a document's fields, a schema's declarations
//! and the index's documents.
use vstd::prelude::*;

use crate::text::{
    chars_of, compare_text, lemma_sorted_distinct, lemma_sorted_insert, lemma_sorted_remove,
    lemma_text_lt_asymmetric, lemma_text_lt_total, same_text, strictly_sorted, text_lt, Placement,
};

verus! {

/// The keys of a keyed sequence, in order.
pub open spec fn keys_of<V>(s: Seq<(Seq<char>, V)>) -> Seq<Seq<char>> {
    s.map_values(|e: (Seq<char>, V)| e.0)
}

/// A keyed sequence whose keys strictly increase.
pub open spec fn is_ordered<V>(s: Seq<(Seq<char>, V)>) -> bool {
    strictly_sorted(keys_of(s))
}

/// The value of the first entry with key `k`, if there is one.
pub open spec fn lookup<V>(s: Seq<(Seq<char>, V)>, k: Seq<char>) -> Option<V>
    decreases s.len(),
{
    if s.len() == 0 {
        None
    } else if s[0].0 == k {
        Some(s[0].1)
    } else {
        lookup(s.drop_first(), k)
    }
}

/// The map from each key to its entry's value.
pub open spec fn as_map<V>(s: Seq<(Seq<char>, V)>) -> Map<Seq<char>, V> {
    Map::new(|k: Seq<char>| lookup(s, k) is Some, |k: Seq<char>| lookup(s, k)->0)
}

/// The entry at `i` is found by its key when no earlier entry has that key.
pub proof fn lemma_lookup_first<V>(s: Seq<(Seq<char>, V)>, i: int)
    requires
        0 <= i < s.len(),
        forall|j: int| 0 <= j < i ==> s[j].0 != s[i].0,
    ensures
        lookup(s, s[i].0) == Some(s[i].1),
    decreases i,
{
    if i > 0 {
        let t = s.drop_first();
        assert(t[i - 1] == s[i]);
        assert forall|j: int| 0 <= j < i - 1 implies #[trigger] t[j].0 != t[i - 1].0 by {
            assert(t[j] == s[j + 1]);
        }
        lemma_lookup_first(t, i - 1);
    }
}

/// A key that no entry carries is not found.
pub proof fn lemma_lookup_absent<V>(s: Seq<(Seq<char>, V)>, k: Seq<char>)
    requires
        forall|j: int| 0 <= j < s.len() ==> s[j].0 != k,
    ensures
        lookup(s, k) is None,
    decreases s.len(),
{
    if s.len() > 0 {
        let t = s.drop_first();
        assert forall|j: int| 0 <= j < t.len() implies t[j].0 != k by {
            assert(t[j] == s[j + 1]);
        }
        lemma_lookup_absent(t, k);
    }
}

/// What is found is the value of an entry with that key.
pub proof fn lemma_lookup_found<V>(s: Seq<(Seq<char>, V)>, k: Seq<char>) -> (i: int)
    requires
        lookup(s, k) is Some,
    ensures
        0 <= i < s.len(),
        s[i].0 == k,
        lookup(s, k) == Some(s[i].1),
        forall|j: int| 0 <= j < i ==> s[j].0 != k,
    decreases s.len(),
{
    if s[0].0 == k {
        0
    } else {
        let t = s.drop_first();
        let i = lemma_lookup_found(t, k);
        assert(t[i] == s[i + 1]);
        assert forall|j: int| 0 <= j < i + 1 implies s[j].0 != k by {
            if j > 0 {
                assert(t[j - 1] == s[j]);
            }
        }
        i + 1
    }
}

/// In an ordered sequence every entry is found by its key.
pub proof fn lemma_lookup_ordered<V>(s: Seq<(Seq<char>, V)>, i: int)
    requires
        is_ordered(s),
        0 <= i < s.len(),
    ensures
        lookup(s, s[i].0) == Some(s[i].1),
{
    assert forall|j: int| 0 <= j < i implies s[j].0 != s[i].0 by {
        lemma_sorted_distinct(keys_of(s), j, i);
    }
    lemma_lookup_first(s, i);
}

/// A lookup that passes over entries with other keys is a lookup in the rest.
pub proof fn lemma_lookup_skip<V>(s: Seq<(Seq<char>, V)>, k: Seq<char>, i: int)
    requires
        0 <= i <= s.len(),
        forall|j: int| 0 <= j < i ==> s[j].0 != k,
    ensures
        lookup(s, k) == lookup(s.skip(i), k),
    decreases i,
{
    if i > 0 {
        let t = s.drop_first();
        assert forall|j: int| 0 <= j < i - 1 implies t[j].0 != k by {
            assert(t[j] == s[j + 1]);
        }
        lemma_lookup_skip(t, k, i - 1);
        assert(t.skip(i - 1) =~= s.skip(i));
    } else {
        assert(s.skip(0) =~= s);
    }
}

/// Replacing the entry with key `k`, or inserting one at the place its key
/// takes in the order, keeps the sequence ordered and changes the lookup of
/// `k` alone.
pub proof fn lemma_upsert<V>(s: Seq<(Seq<char>, V)>, p: int, k: Seq<char>, v: V, n: Seq<(Seq<char>, V)>)
    requires
        is_ordered(s),
        0 <= p <= s.len(),
        forall|j: int| 0 <= j < p ==> text_lt(#[trigger] s[j].0, k),
        p < s.len() ==> !text_lt(s[p].0, k),
        n == if p < s.len() && s[p].0 == k {
            s.update(p, (k, v))
        } else {
            s.insert(p, (k, v))
        },
    ensures
        is_ordered(n),
        forall|m: Seq<char>| #[trigger]
            lookup(n, m) == if m == k {
                Some(v)
            } else {
                lookup(s, m)
            },
{
    let ks = keys_of(s);
    let replace = p < s.len() && s[p].0 == k;
    if replace {
        assert(keys_of(n) =~= ks);
    } else {
        if p < s.len() {
            lemma_text_lt_total(s[p].0, k);
        }
        assert(keys_of(n) =~= ks.insert(p, k));
        assert forall|j: int| 0 <= j < p implies text_lt(#[trigger] ks[j], k) by {
            assert(ks[j] == s[j].0);
        }
        lemma_sorted_insert(ks, p, k);
    }
    assert(n[p] == (k, v));
    assert forall|j: int| 0 <= j < p implies n[j].0 != n[p].0 by {
        assert(n[j] == s[j]);
        lemma_text_lt_asymmetric(s[j].0, k);
    }
    lemma_lookup_first(n, p);
    assert forall|m: Seq<char>| #[trigger]
        lookup(n, m) == if m == k {
            Some(v)
        } else {
            lookup(s, m)
        } by {
        if m != k {
            if lookup(s, m) is Some {
                let i = lemma_lookup_found(s, m);
                lemma_lookup_ordered(s, i);
                let i2 = if replace || i < p {
                    i
                } else {
                    i + 1
                };
                assert(n[i2] == s[i]);
                lemma_lookup_ordered(n, i2);
            } else {
                assert forall|j: int| 0 <= j < n.len() implies n[j].0 != m by {
                    if j != p {
                        let i = if replace || j < p {
                            j
                        } else {
                            j - 1
                        };
                        assert(n[j] == s[i]);
                        if s[i].0 == m {
                            lemma_lookup_ordered(s, i);
                        }
                    }
                }
                lemma_lookup_absent(n, m);
            }
        }
    }
}

/// Removing the entry at `p` keeps the sequence ordered and makes its key
/// absent, leaving every other lookup as it was.
pub proof fn lemma_remove<V>(s: Seq<(Seq<char>, V)>, p: int)
    requires
        is_ordered(s),
        0 <= p < s.len(),
    ensures
        is_ordered(s.remove(p)),
        forall|m: Seq<char>| #[trigger]
            lookup(s.remove(p), m) == if m == s[p].0 {
                None
            } else {
                lookup(s, m)
            },
{
    let n = s.remove(p);
    let k = s[p].0;
    assert(keys_of(n) =~= keys_of(s).remove(p));
    lemma_sorted_remove(keys_of(s), p);
    assert forall|m: Seq<char>| #[trigger]
        lookup(n, m) == if m == k {
            None
        } else {
            lookup(s, m)
        } by {
        if m == k {
            assert forall|j: int| 0 <= j < n.len() implies n[j].0 != m by {
                let i = if j < p {
                    j
                } else {
                    j + 1
                };
                assert(n[j] == s[i]);
                lemma_sorted_distinct(keys_of(s), i, p);
            }
            lemma_lookup_absent(n, m);
        } else if lookup(s, m) is Some {
            let i = lemma_lookup_found(s, m);
            lemma_lookup_ordered(s, i);
            let i2 = if i < p {
                i
            } else {
                i - 1
            };
            assert(n[i2] == s[i]);
            lemma_lookup_ordered(n, i2);
        } else {
            assert forall|j: int| 0 <= j < n.len() implies n[j].0 != m by {
                let i = if j < p {
                    j
                } else {
                    j + 1
                };
                assert(n[j] == s[i]);
                if s[i].0 == m {
                    lemma_lookup_ordered(s, i);
                }
            }
            lemma_lookup_absent(n, m);
        }
    }
}

/// Pointwise equal lookups give equal maps.
pub proof fn lemma_as_map_update<V>(
    old: Seq<(Seq<char>, V)>,
    new: Seq<(Seq<char>, V)>,
    k: Seq<char>,
    v: Option<V>,
)
    requires
        forall|m: Seq<char>| #[trigger]
            lookup(new, m) == if m == k {
                v
            } else {
                lookup(old, m)
            },
    ensures
        as_map(new) == match v {
            Some(x) => as_map(old).insert(k, x),
            None => as_map(old).remove(k),
        },
{
    let target = match v {
        Some(x) => as_map(old).insert(k, x),
        None => as_map(old).remove(k),
    };
    assert(as_map(new).dom() =~= target.dom()) by {
        assert forall|m: Seq<char>| as_map(new).dom().contains(m) == target.dom().contains(m) by {
            assert(lookup(new, m) == if m == k {
                v
            } else {
                lookup(old, m)
            });
        }
    }
    assert forall|m: Seq<char>| #[trigger] as_map(new).dom().contains(m) implies as_map(new)[m]
        == target[m] by {
        assert(lookup(new, m) == if m == k {
            v
        } else {
            lookup(old, m)
        });
    }
    assert(as_map(new) =~= target);
}

/// A stored entry whose key is a text.
pub trait KeyedEntry {
    /// The entry's key.
    spec fn entry_key(&self) -> Seq<char>;

    fn key_text(&self) -> (r: &str)
        ensures
            r@ == self.entry_key(),
    ;
}

/// Where key `k` belongs among the entries `v`, whose keys `s` lists: the
/// position of the first entry whose key is not below `k`, and whether
/// that entry has key `k`.
pub(crate) fn place_of<T: KeyedEntry, V>(
    v: &[T],
    k: &Vec<char>,
    Ghost(s): Ghost<Seq<(Seq<char>, V)>>,
) -> (r: (usize, bool))
    requires
        s.len() == v@.len(),
        forall|j: int| 0 <= j < s.len() ==> #[trigger] s[j].0 == v@[j].entry_key(),
    ensures
        r.0 <= s.len(),
        forall|j: int| 0 <= j < r.0 ==> text_lt(#[trigger] s[j].0, k@),
        r.0 < s.len() ==> !text_lt(s[r.0 as int].0, k@),
        r.1 == (r.0 < s.len() && s[r.0 as int].0 == k@),
{
    let mut p: usize = 0;
    while p < v.len()
        invariant
            p <= v@.len(),
            s.len() == v@.len(),
            forall|j: int| 0 <= j < s.len() ==> #[trigger] s[j].0 == v@[j].entry_key(),
            forall|j: int| 0 <= j < p ==> text_lt(#[trigger] s[j].0, k@),
        decreases v@.len() - p,
    {
        let c = chars_of(v[p].key_text());
        proof {
            assert(s[p as int].0 == v@[p as int].entry_key());
        }
        match compare_text(&c, k) {
            Placement::Before => {},
            Placement::Same => {
                return (p, true);
            },
            Placement::After => {
                proof {
                    lemma_text_lt_asymmetric(k@, c@);
                }
                return (p, false);
            },
        }
        p = p + 1;
    }
    (p, false)
}

/// The position of the first of the entries `v` (whose keys `s` lists)
/// with key `k`, if any.
pub(crate) fn find_key<T: KeyedEntry, V>(
    v: &[T],
    k: &Vec<char>,
    Ghost(s): Ghost<Seq<(Seq<char>, V)>>,
) -> (r: Option<usize>)
    requires
        s.len() == v@.len(),
        forall|j: int| 0 <= j < s.len() ==> #[trigger] s[j].0 == v@[j].entry_key(),
    ensures
        match r {
            Some(i) => i < s.len() && s[i as int].0 == k@ && lookup(s, k@) == Some(s[i as int].1),
            None => lookup(s, k@) is None,
        },
{
    let mut i: usize = 0;
    while i < v.len()
        invariant
            i <= v@.len(),
            s.len() == v@.len(),
            forall|j: int| 0 <= j < s.len() ==> #[trigger] s[j].0 == v@[j].entry_key(),
            forall|j: int| 0 <= j < i ==> #[trigger] s[j].0 != k@,
        decreases v@.len() - i,
    {
        proof {
            assert(s[i as int].0 == v@[i as int].entry_key());
        }
        if same_text(&chars_of(v[i].key_text()), k) {
            proof {
                lemma_lookup_skip(s, k@, i as int);
                assert(s.skip(i as int)[0] == s[i as int]);
            }
            return Some(i);
        }
        i = i + 1;
    }
    proof {
        lemma_lookup_skip(s, k@, i as int);
        assert(s.skip(i as int).len() == 0);
    }
    None
}

} // verus!
