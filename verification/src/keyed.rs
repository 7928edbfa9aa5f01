use vstd::prelude::*;

verus! {

/// The map an association list denotes: each entry's key leads to its value,
/// later entries winning. Every list the network keeps has distinct keys, so
/// the order never matters.
pub open spec fn entry_map<T, K, V>(
    s: Seq<T>,
    key: spec_fn(T) -> K,
    val: spec_fn(T) -> V,
) -> Map<K, V>
    decreases s.len(),
{
    if s.len() == 0 {
        Map::empty()
    } else {
        entry_map(s.drop_last(), key, val).insert(key(s.last()), val(s.last()))
    }
}

/// No two entries share a key.
pub open spec fn keys_distinct<T, K>(s: Seq<T>, key: spec_fn(T) -> K) -> bool {
    forall|i: int, j: int| 0 <= i < j < s.len() ==> #[trigger] key(s[i]) != #[trigger] key(s[j])
}

/// The domain of `entry_map` is exactly the set of keys of the list.
pub proof fn lemma_entry_map_dom<T, K, V>(s: Seq<T>, key: spec_fn(T) -> K, val: spec_fn(T) -> V)
    ensures
        forall|i: int| 0 <= i < s.len() ==> entry_map(s, key, val).dom().contains(
            #[trigger] key(s[i]),
        ),
        forall|k: K| #[trigger] entry_map(s, key, val).dom().contains(k) ==> exists|i: int|
            0 <= i < s.len() && key(#[trigger] s[i]) == k,
    decreases s.len(),
{
    if s.len() > 0 {
        let prefix = s.drop_last();
        lemma_entry_map_dom(prefix, key, val);
        assert forall|i: int| 0 <= i < s.len() implies entry_map(s, key, val).dom().contains(
            #[trigger] key(s[i]),
        ) by {
            if i < s.len() - 1 {
                assert(prefix[i] == s[i]);
                assert(entry_map(prefix, key, val).dom().contains(key(prefix[i])));
            }
        }
        assert forall|k: K| #[trigger] entry_map(s, key, val).dom().contains(k) implies exists|
            i: int,
        | 0 <= i < s.len() && key(#[trigger] s[i]) == k by {
            if k == key(s.last()) {
                assert(s[s.len() - 1] == s.last());
            } else {
                assert(entry_map(prefix, key, val).dom().contains(k));
                let i = choose|i: int| 0 <= i < prefix.len() && key(#[trigger] prefix[i]) == k;
                assert(s[i] == prefix[i]);
            }
        }
    }
}

/// With distinct keys, each entry's key leads to that entry's value.
pub proof fn lemma_entry_map_index<T, K, V>(
    s: Seq<T>,
    key: spec_fn(T) -> K,
    val: spec_fn(T) -> V,
    i: int,
)
    requires
        keys_distinct(s, key),
        0 <= i < s.len(),
    ensures
        entry_map(s, key, val).dom().contains(key(s[i])),
        entry_map(s, key, val)[key(s[i])] == val(s[i]),
    decreases s.len(),
{
    if i == s.len() - 1 {
        assert(s[i] == s.last());
    } else {
        let prefix = s.drop_last();
        assert(keys_distinct(prefix, key)) by {
            assert forall|a: int, b: int| 0 <= a < b < prefix.len() implies #[trigger] key(
                prefix[a],
            ) != #[trigger] key(prefix[b]) by {
                assert(prefix[a] == s[a] && prefix[b] == s[b]);
                assert(key(s[a]) != key(s[b]));
            }
        }
        lemma_entry_map_index(prefix, key, val, i);
        assert(prefix[i] == s[i]);
        assert(key(s[i]) != key(s.last())) by {
            assert(s[s.len() - 1] == s.last());
        }
    }
}

/// Appending an entry whose key is fresh inserts it into the map.
pub proof fn lemma_entry_map_push<T, K, V>(
    s: Seq<T>,
    key: spec_fn(T) -> K,
    val: spec_fn(T) -> V,
    t: T,
)
    requires
        forall|i: int| 0 <= i < s.len() ==> #[trigger] key(s[i]) != key(t),
    ensures
        keys_distinct(s, key) ==> keys_distinct(s.push(t), key),
        entry_map(s.push(t), key, val) == entry_map(s, key, val).insert(key(t), val(t)),
{
    assert(s.push(t).drop_last() =~= s);
    assert(s.push(t).last() == t);
    if keys_distinct(s, key) {
        assert forall|a: int, b: int| 0 <= a < b < s.push(t).len() implies #[trigger] key(
            s.push(t)[a],
        ) != #[trigger] key(s.push(t)[b]) by {
            if b < s.len() {
                assert(s.push(t)[a] == s[a] && s.push(t)[b] == s[b]);
            } else {
                assert(s.push(t)[a] == s[a] && s.push(t)[b] == t);
            }
        }
    }
}

/// Removing the entry at `i` removes its key from the map.
pub proof fn lemma_entry_map_remove<T, K, V>(
    s: Seq<T>,
    key: spec_fn(T) -> K,
    val: spec_fn(T) -> V,
    i: int,
)
    requires
        keys_distinct(s, key),
        0 <= i < s.len(),
    ensures
        keys_distinct(s.remove(i), key),
        entry_map(s.remove(i), key, val) =~= entry_map(s, key, val).remove(key(s[i])),
    decreases s.len(),
{
    assert forall|a: int, b: int| 0 <= a < b < s.remove(i).len() implies #[trigger] key(
        s.remove(i)[a],
    ) != #[trigger] key(s.remove(i)[b]) by {
        let a0 = if a < i { a } else { a + 1 };
        let b0 = if b < i { b } else { b + 1 };
        assert(s.remove(i)[a] == s[a0] && s.remove(i)[b] == s[b0]);
        assert(key(s[a0]) != key(s[b0]));
    }
    lemma_entry_map_dom(s, key, val);
    lemma_entry_map_dom(s.remove(i), key, val);
    if i == s.len() - 1 {
        assert(s.remove(i) =~= s.drop_last());
        assert(!entry_map(s.drop_last(), key, val).dom().contains(key(s[i]))) by {
            lemma_entry_map_dom(s.drop_last(), key, val);
            if entry_map(s.drop_last(), key, val).dom().contains(key(s[i])) {
                let j = choose|j: int|
                    0 <= j < s.drop_last().len() && key(#[trigger] s.drop_last()[j]) == key(s[i]);
                assert(s.drop_last()[j] == s[j]);
                assert(key(s[j]) != key(s[i]));
            }
        }
        assert(entry_map(s.remove(i), key, val) =~= entry_map(s, key, val).remove(key(s[i])));
    } else {
        let prefix = s.drop_last();
        assert(keys_distinct(prefix, key)) by {
            assert forall|a: int, b: int| 0 <= a < b < prefix.len() implies #[trigger] key(
                prefix[a],
            ) != #[trigger] key(prefix[b]) by {
                assert(prefix[a] == s[a] && prefix[b] == s[b]);
            }
        }
        lemma_entry_map_remove(prefix, key, val, i);
        assert(s.remove(i).drop_last() =~= prefix.remove(i)) by {
            assert(s.remove(i).len() == s.len() - 1);
            assert forall|j: int| 0 <= j < s.remove(i).drop_last().len() implies s.remove(
                i,
            ).drop_last()[j] == prefix.remove(i)[j] by {
                if j < i {
                    assert(s.remove(i)[j] == s[j] && prefix[j] == s[j]);
                } else {
                    assert(s.remove(i)[j] == s[j + 1] && prefix[j + 1] == s[j + 1]);
                }
            }
        }
        assert(s.remove(i).last() == s.last()) by {
            assert(s.remove(i)[s.len() - 2] == s[s.len() - 1]);
        }
        assert(prefix[i] == s[i]);
        assert(key(s.last()) != key(s[i])) by {
            assert(s[s.len() - 1] == s.last());
        }
        assert(entry_map(s.remove(i), key, val) =~= entry_map(s, key, val).remove(key(s[i])));
    }
}

/// Replacing the entry at `i` by one with the same key updates the map at
/// that key.
pub proof fn lemma_entry_map_update<T, K, V>(
    s: Seq<T>,
    key: spec_fn(T) -> K,
    val: spec_fn(T) -> V,
    i: int,
    t: T,
)
    requires
        keys_distinct(s, key),
        0 <= i < s.len(),
        key(t) == key(s[i]),
    ensures
        keys_distinct(s.update(i, t), key),
        entry_map(s.update(i, t), key, val) =~= entry_map(s, key, val).insert(key(t), val(t)),
    decreases s.len(),
{
    assert forall|a: int, b: int| 0 <= a < b < s.update(i, t).len() implies #[trigger] key(
        s.update(i, t)[a],
    ) != #[trigger] key(s.update(i, t)[b]) by {
        assert(key(s[a]) != key(s[b]));
        if a == i {
            assert(s.update(i, t)[a] == t && s.update(i, t)[b] == s[b]);
        } else if b == i {
            assert(s.update(i, t)[a] == s[a] && s.update(i, t)[b] == t);
        } else {
            assert(s.update(i, t)[a] == s[a] && s.update(i, t)[b] == s[b]);
        }
    }
    if i == s.len() - 1 {
        assert(s.update(i, t).drop_last() =~= s.drop_last());
        assert(s.update(i, t).last() == t);
        assert(s[i] == s.last());
        assert(entry_map(s.update(i, t), key, val) =~= entry_map(s, key, val).insert(
            key(t),
            val(t),
        ));
    } else {
        let prefix = s.drop_last();
        assert(keys_distinct(prefix, key)) by {
            assert forall|a: int, b: int| 0 <= a < b < prefix.len() implies #[trigger] key(
                prefix[a],
            ) != #[trigger] key(prefix[b]) by {
                assert(prefix[a] == s[a] && prefix[b] == s[b]);
            }
        }
        assert(prefix[i] == s[i]);
        lemma_entry_map_update(prefix, key, val, i, t);
        assert(s.update(i, t).drop_last() =~= prefix.update(i, t)) by {
            assert forall|j: int| 0 <= j < s.update(i, t).drop_last().len() implies s.update(
                i,
                t,
            ).drop_last()[j] == prefix.update(i, t)[j] by {
                if j != i {
                    assert(s.update(i, t)[j] == s[j] && prefix[j] == s[j]);
                }
            }
        }
        assert(s.update(i, t).last() == s.last()) by {
            assert(s.update(i, t)[s.len() - 1] == s[s.len() - 1]);
        }
        assert(key(s.last()) != key(s[i])) by {
            assert(s[s.len() - 1] == s.last());
        }
        assert(entry_map(s.update(i, t), key, val) =~= entry_map(s, key, val).insert(
            key(t),
            val(t),
        ));
    }
}

/// Entries of a duplicate-free list, seen as a set: pushing a fresh element.
pub proof fn lemma_push_distinct<T>(s: Seq<T>, t: T)
    requires
        !s.contains(t),
        forall|a: int, b: int| 0 <= a < b < s.len() ==> s[a] != s[b],
    ensures
        forall|m: T| s.push(t).contains(m) == (s.contains(m) || m == t),
        forall|a: int, b: int| 0 <= a < b < s.push(t).len() ==> s.push(t)[a] != s.push(t)[b],
{
    assert forall|m: T| s.push(t).contains(m) == (s.contains(m) || m == t) by {
        if s.contains(m) {
            let i = choose|i: int| 0 <= i < s.len() && s[i] == m;
            assert(s.push(t)[i] == m);
        }
        if m == t {
            assert(s.push(t)[s.len() as int] == m);
        }
        if s.push(t).contains(m) {
            let i = choose|i: int| 0 <= i < s.push(t).len() && s.push(t)[i] == m;
            if i < s.len() {
                assert(s[i] == m);
            }
        }
    }
    assert forall|a: int, b: int| 0 <= a < b < s.push(t).len() implies s.push(t)[a] != s.push(
        t,
    )[b] by {
        if b < s.len() {
            assert(s.push(t)[a] == s[a] && s.push(t)[b] == s[b]);
        } else {
            assert(s.push(t)[a] == s[a] && s.push(t)[b] == t);
            if s[a] == t {
                assert(s.contains(t));
            }
        }
    }
}

/// Entries of a duplicate-free list, seen as a set: removing the entry at `i`.
pub proof fn lemma_remove_distinct<T>(s: Seq<T>, i: int)
    requires
        0 <= i < s.len(),
        forall|a: int, b: int| 0 <= a < b < s.len() ==> s[a] != s[b],
    ensures
        forall|m: T| s.remove(i).contains(m) == (s.contains(m) && m != s[i]),
        forall|a: int, b: int| 0 <= a < b < s.remove(i).len() ==> s.remove(i)[a] != s.remove(i)[b],
{
    assert forall|m: T| s.remove(i).contains(m) == (s.contains(m) && m != s[i]) by {
        if s.remove(i).contains(m) {
            let j = choose|j: int| 0 <= j < s.remove(i).len() && s.remove(i)[j] == m;
            let j0 = if j < i {
                j
            } else {
                j + 1
            };
            assert(s[j0] == m);
            assert(s[j0] != s[i]);
        }
        if s.contains(m) && m != s[i] {
            let j0 = choose|j0: int| 0 <= j0 < s.len() && s[j0] == m;
            if j0 < i {
                assert(s.remove(i)[j0] == m);
            } else {
                assert(j0 != i);
                assert(s.remove(i)[j0 - 1] == m);
            }
        }
    }
    assert forall|a: int, b: int| 0 <= a < b < s.remove(i).len() implies s.remove(i)[a] != s.remove(
        i,
    )[b] by {
        let a0 = if a < i {
            a
        } else {
            a + 1
        };
        let b0 = if b < i {
            b
        } else {
            b + 1
        };
        assert(s.remove(i)[a] == s[a0] && s.remove(i)[b] == s[b0]);
    }
}

} // verus!
