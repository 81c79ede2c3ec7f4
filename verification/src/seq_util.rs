//! Lookups by key in sequences of key-value pairs, which model the maps of
//! spec and value trees.
use vstd::prelude::*;

verus! {

/// The keys of a sequence of pairs whose keys are strings.
pub open spec fn string_keys<X>(s: Seq<(String, X)>) -> Seq<Seq<char>> {
    s.map_values(|e: (String, X)| e.0@)
}

/// The keys of a sequence of pairs whose keys are plain values.
pub open spec fn plain_keys<K, T>(s: Seq<(K, T)>) -> Seq<K> {
    s.map_values(|e: (K, T)| e.0)
}

/// The keys of a sequence of pairs whose keys are character sequences.
pub open spec fn view_keys<T>(s: Seq<(Seq<char>, T)>) -> Seq<Seq<char>> {
    s.map_values(|e: (Seq<char>, T)| e.0)
}

/// The position of the first occurrence of `k` in `keys`, or -1.
pub open spec fn key_pos<K>(keys: Seq<K>, k: K) -> int
    decreases keys.len(),
{
    if keys.len() == 0 {
        -1
    } else {
        let j = key_pos(keys.drop_last(), k);
        if j >= 0 {
            j
        } else if keys.last() == k {
            keys.len() - 1
        } else {
            -1
        }
    }
}

/// Whether no key occurs twice.
pub open spec fn keys_distinct<K>(keys: Seq<K>) -> bool {
    forall|i: int, j: int| 0 <= i < j < keys.len() ==> keys[i] != keys[j]
}

/// `key_pos` finds the first occurrence, and -1 exactly when there is none.
pub proof fn lemma_key_pos<K>(keys: Seq<K>, k: K)
    ensures
        -1 <= key_pos(keys, k) < keys.len(),
        key_pos(keys, k) == -1 <==> !keys.contains(k),
        key_pos(keys, k) >= 0 ==> keys[key_pos(keys, k)] == k,
        forall|j: int| 0 <= j < key_pos(keys, k) ==> keys[j] != k,
    decreases keys.len(),
{
    if keys.len() > 0 {
        lemma_key_pos(keys.drop_last(), k);
        let j = key_pos(keys.drop_last(), k);
        if j < 0 && keys.last() != k {
            assert forall|i: int| 0 <= i < keys.len() implies keys[i] != k by {
                if i < keys.len() - 1 {
                    assert(keys.drop_last()[i] == keys[i]);
                }
            }
        }
        assert forall|i: int| 0 <= i < key_pos(keys, k) implies keys[i] != k by {
            assert(keys.drop_last()[i] == keys[i]);
        }
        if keys.contains(k) && j < 0 {
            let i = choose|i: int| 0 <= i < keys.len() && keys[i] == k;
            if i < keys.len() - 1 {
                assert(keys.drop_last()[i] == k);
                assert(keys.drop_last().contains(k));
            }
        }
    }
}

/// With distinct keys, the position of a key is the one place it occurs.
pub proof fn lemma_key_pos_distinct<K>(keys: Seq<K>, i: int)
    requires
        keys_distinct(keys),
        0 <= i < keys.len(),
    ensures
        key_pos(keys, keys[i]) == i,
{
    lemma_key_pos(keys, keys[i]);
    assert(keys.contains(keys[i]));
}

/// A sequence of distinct elements, each of which occurs in `b`, is no
/// longer than `b`.
pub proof fn lemma_distinct_within_len<K>(a: Seq<K>, b: Seq<K>)
    requires
        keys_distinct(a),
        forall|j: int| 0 <= j < a.len() ==> b.contains(#[trigger] a[j]),
    ensures
        a.len() <= b.len(),
{
    assert forall|i: int, j: int| 0 <= i < a.len() && 0 <= j < a.len() && i != j implies a[i] != a[j] by {
        if i > j {
            assert(a[j] != a[i]);
        }
    }
    assert(a.no_duplicates());
    a.unique_seq_to_set();
    vstd::seq_lib::seq_to_set_is_finite(b);
    assert forall|x: K| a.to_set().contains(x) implies b.to_set().contains(x) by {
        let j = choose|j: int| 0 <= j < a.len() && a[j] == x;
        assert(b.contains(a[j]));
    }
    assert(a.to_set().subset_of(b.to_set()));
    vstd::set_lib::lemma_len_subset(a.to_set(), b.to_set());
    b.lemma_cardinality_of_set();
}

/// The position of the first pair whose key is `k`.
pub fn find_key<X>(m: &Vec<(String, X)>, k: &str) -> (r: Option<usize>)
    ensures
        match r {
            Some(i) => i < m@.len() && key_pos(string_keys(m@), k@) == i,
            None => key_pos(string_keys(m@), k@) == -1,
        },
{
    let ghost keys = string_keys(m@);
    let mut i: usize = 0;
    while i < m.len()
        invariant
            i <= m@.len(),
            keys == string_keys(m@),
            forall|j: int| 0 <= j < i ==> keys[j] != k@,
        decreases m.len() - i,
    {
        let probe: String = k.to_owned();
        if m[i].0 == probe {
            proof {
                lemma_key_pos(keys, k@);
                assert(keys[i as int] == k@);
                assert(keys.contains(k@));
            }
            return Some(i);
        }
        i = i + 1;
    }
    proof {
        lemma_key_pos(keys, k@);
        if keys.contains(k@) {
            let j = choose|j: int| 0 <= j < keys.len() && keys[j] == k@;
            assert(keys[j] != k@);
        }
    }
    None
}

} // verus!
