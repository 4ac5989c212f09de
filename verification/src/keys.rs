//! Tables keyed by text: a vector of distinct keys beside a vector of values.

use vstd::prelude::*;

verus! {

/// The map that a vector of distinct keys and a vector of values of the same
/// length stand for: each key is bound to the value at the key's own index.
pub open spec fn keyed<V>(keys: Seq<Seq<char>>, values: Seq<V>) -> Map<Seq<char>, V> {
    Map::new(|k: Seq<char>| keys.contains(k), |k: Seq<char>| values[keys.index_of(k)])
}

/// In a sequence without duplicates a key sits at one index only.
pub proof fn lemma_index_of_unique(keys: Seq<Seq<char>>, i: int)
    requires
        keys.no_duplicates(),
        0 <= i < keys.len(),
    ensures
        keys.contains(keys[i]),
        keys.index_of(keys[i]) == i,
{
    assert(keys.contains(keys[i]));
}

/// The keys of the map are the keys of the vector, each once.
pub proof fn lemma_keyed_dom<V>(keys: Seq<Seq<char>>, values: Seq<V>)
    requires
        keys.no_duplicates(),
    ensures
        keyed(keys, values).dom() == keys.to_set(),
        keyed(keys, values).dom().finite(),
        keyed(keys, values).dom().len() == keys.len(),
        forall|i: int| 0 <= i < keys.len() ==> keyed(keys, values).dom().contains(#[trigger] keys[i]),
{
    keys.unique_seq_to_set();
    assert(keys.to_set() =~= keyed(keys, values).dom());
    vstd::seq_lib::seq_to_set_is_finite(keys);
    assert forall|i: int| 0 <= i < keys.len() implies keyed(keys, values).dom().contains(
        #[trigger] keys[i],
    ) by {
        assert(keys.contains(keys[i]));
    }
}

/// Binding a new key at the end of both vectors is `Map::insert`.
pub proof fn lemma_keyed_push<V>(keys: Seq<Seq<char>>, values: Seq<V>, k: Seq<char>, v: V)
    requires
        keys.no_duplicates(),
        keys.len() == values.len(),
        !keys.contains(k),
    ensures
        keys.push(k).no_duplicates(),
        keyed(keys.push(k), values.push(v)) == keyed(keys, values).insert(k, v),
{
    let keys2 = keys.push(k);
    let values2 = values.push(v);
    assert(keys2.no_duplicates()) by {
        assert forall|i: int, j: int|
            0 <= i < keys2.len() && 0 <= j < keys2.len() && i != j implies keys2[i] != keys2[j] by {
            if i < keys.len() && j < keys.len() {
            } else if i < keys.len() {
                assert(keys.contains(keys[i]));
            } else if j < keys.len() {
                assert(keys.contains(keys[j]));
            }
        }
    }
    assert forall|x: Seq<char>| keys2.contains(x) <==> (keys.contains(x) || x == k) by {
        if keys2.contains(x) {
            let i = keys2.index_of(x);
            if i < keys.len() {
                assert(keys[i] == x);
            }
        }
        if keys.contains(x) {
            let i = keys.index_of(x);
            assert(keys2[i] == x);
        }
        if x == k {
            assert(keys2[keys.len() as int] == x);
        }
    }
    assert forall|x: Seq<char>| keys2.contains(x) implies #[trigger] values2[keys2.index_of(x)] == keyed(
        keys,
        values,
    ).insert(k, v)[x] by {
        let i = keys2.index_of(x);
        lemma_index_of_unique(keys2, i);
        if x == k {
            lemma_index_of_unique(keys2, keys.len() as int);
        } else {
            let j = keys.index_of(x);
            assert(keys2[j] == x);
            lemma_index_of_unique(keys2, j);
        }
    }
    assert(keyed(keys2, values2) =~= keyed(keys, values).insert(k, v));
}

/// Replacing the value at index `i` is `Map::insert` at the key of that index.
pub proof fn lemma_keyed_update<V>(keys: Seq<Seq<char>>, values: Seq<V>, i: int, v: V)
    requires
        keys.no_duplicates(),
        keys.len() == values.len(),
        0 <= i < keys.len(),
    ensures
        keyed(keys, values.update(i, v)) == keyed(keys, values).insert(keys[i], v),
{
    let values2 = values.update(i, v);
    assert forall|x: Seq<char>| keys.contains(x) implies #[trigger] values2[keys.index_of(x)] == keyed(
        keys,
        values,
    ).insert(keys[i], v)[x] by {
        lemma_index_of_unique(keys, i);
    }
    assert(keys.contains(keys[i]));
    assert(keyed(keys, values2) =~= keyed(keys, values).insert(keys[i], v));
}

/// The first index of `key` among `keys`, if it is one of them.
pub fn position(keys: &Vec<String>, key: &String) -> (r: Option<usize>)
    ensures
        match r {
            Some(i) => {
                &&& i < keys.len()
                &&& keys.deep_view()[i as int] == key@
                &&& forall|j: int| 0 <= j < i ==> keys.deep_view()[j] != key@
            },
            None => !keys.deep_view().contains(key@),
        },
{
    let mut i: usize = 0;
    while i < keys.len()
        invariant
            i <= keys.len(),
            forall|j: int| 0 <= j < i ==> keys.deep_view()[j] != key@,
        decreases keys.len() - i,
    {
        if keys[i] == *key {
            return Some(i);
        }
        i += 1;
    }
    None
}

} // verus!
