//! Lists filed under numbers, and what they hold taken together.
use vstd::multiset::Multiset;
use vstd::prelude::*;

verus! {

/// The list filed under `k`, empty if there is none.
pub open spec fn list_at<T>(m: Map<u64, Seq<T>>, k: u64) -> Seq<T> {
    if m.contains_key(k) {
        m[k]
    } else {
        Seq::empty()
    }
}

/// `m` with `list` filed under `k`. An empty list is not kept.
pub open spec fn file_list<T>(m: Map<u64, Seq<T>>, k: u64, list: Seq<T>) -> Map<u64, Seq<T>> {
    if list.len() == 0 {
        m.remove(k)
    } else {
        m.insert(k, list)
    }
}

/// Everything in the lists of `m` taken together.
pub open spec fn pooled<T>(m: Map<u64, Seq<T>>) -> Multiset<T>
    decreases m.dom().len(),
{
    if m.dom().finite() && m.dom().len() > 0 {
        let k = m.dom().choose();
        m[k].to_multiset().add(pooled(m.remove(k)))
    } else {
        Multiset::empty()
    }
}

/// The lists filed under `keys`, one after the other.
pub open spec fn joined<T>(m: Map<u64, Seq<T>>, keys: Seq<u64>) -> Seq<T>
    decreases keys.len(),
{
    if keys.len() == 0 {
        Seq::empty()
    } else {
        joined(m, keys.drop_last()) + m[keys.last()]
    }
}

/// `keys` visits each list of `m` exactly once.
pub open spec fn visits_all<T>(m: Map<u64, Seq<T>>, keys: Seq<u64>) -> bool {
    &&& keys.no_duplicates()
    &&& keys.to_set() == m.dom()
}

/// The lists of `m` with `f` applied to each thing in them.
pub open spec fn map_lists<T, U>(m: Map<u64, Seq<T>>, f: spec_fn(T) -> U) -> Map<u64, Seq<U>> {
    m.map_values(|list: Seq<T>| list.map_values(f))
}

/// One list can be told apart from the others, whichever it is.
pub proof fn lemma_pooled_split<T>(m: Map<u64, Seq<T>>, k: u64)
    requires
        m.dom().finite(),
        m.contains_key(k),
    ensures
        pooled(m) == m[k].to_multiset().add(pooled(m.remove(k))),
    decreases m.dom().len(),
{
    let c = m.dom().choose();
    if c != k {
        let rest = m.remove(c);
        lemma_pooled_split(rest, k);
        assert(rest.remove(k) =~= m.remove(k).remove(c));
        lemma_pooled_split(m.remove(k), c);
        assert(pooled(m) =~= m[k].to_multiset().add(pooled(m.remove(k))));
    }
}

/// Filing a list replaces what was filed under that number, and nothing else.
pub proof fn lemma_pooled_file_list<T>(m: Map<u64, Seq<T>>, k: u64, list: Seq<T>)
    requires
        m.dom().finite(),
    ensures
        file_list(m, k, list).dom().finite(),
        pooled(file_list(m, k, list)) == pooled(m.remove(k)).add(list.to_multiset()),
        pooled(m) == pooled(m.remove(k)).add(list_at(m, k).to_multiset()),
{
    broadcast use vstd::seq_lib::group_to_multiset_ensures;

    if m.contains_key(k) {
        lemma_pooled_split(m, k);
        assert(pooled(m) =~= pooled(m.remove(k)).add(list_at(m, k).to_multiset()));
    } else {
        assert(m.remove(k) =~= m);
        assert(Seq::<T>::empty().to_multiset() =~= Multiset::empty());
        assert(pooled(m) =~= pooled(m.remove(k)).add(list_at(m, k).to_multiset()));
    }
    if list.len() == 0 {
        assert(list.to_multiset() =~= Multiset::empty());
        assert(pooled(file_list(m, k, list)) =~= pooled(m.remove(k)).add(list.to_multiset()));
    } else {
        let filed = m.insert(k, list);
        lemma_pooled_split(filed, k);
        assert(filed.remove(k) =~= m.remove(k));
        assert(pooled(filed) =~= pooled(m.remove(k)).add(list.to_multiset()));
    }
}

/// Lists joined in any order that visits all of them hold everything.
pub proof fn lemma_joined_is_pooled<T>(m: Map<u64, Seq<T>>, keys: Seq<u64>)
    requires
        m.dom().finite(),
        visits_all(m, keys),
    ensures
        joined(m, keys).to_multiset() == pooled(m),
    decreases keys.len(),
{
    broadcast use vstd::seq_lib::group_to_multiset_ensures;

    if keys.len() == 0 {
        assert(m.dom() =~= Set::empty());
        assert(joined(m, keys).to_multiset() =~= pooled(m));
    } else {
        let front = keys.drop_last();
        let k = keys.last();
        assert(keys.contains(k));
        let rest = m.remove(k);
        assert(front.to_set() =~= rest.dom()) by {
            assert forall|x: u64| front.to_set().contains(x) == rest.dom().contains(x) by {
                if rest.dom().contains(x) {
                    assert(keys.to_set().contains(x));
                    let i = keys.index_of(x);
                    assert(front[i] == x);
                }
                if front.contains(x) {
                    let i = front.index_of(x);
                    assert(keys[i] == x);
                    assert(keys.to_set().contains(x));
                }
            }
        }
        lemma_joined_is_pooled(rest, front);
        lemma_joined_frame(m, rest, front);
        vstd::seq_lib::lemma_multiset_commutative(joined(m, front), m[k]);
        lemma_pooled_split(m, k);
        assert(joined(m, keys).to_multiset() =~= pooled(m));
    }
}

/// What is joined depends on the visited lists only.
pub proof fn lemma_joined_frame<T>(m: Map<u64, Seq<T>>, n: Map<u64, Seq<T>>, keys: Seq<u64>)
    requires
        forall|i: int| 0 <= i < keys.len() ==> m[#[trigger] keys[i]] == n[keys[i]],
    ensures
        joined(m, keys) == joined(n, keys),
    decreases keys.len(),
{
    if keys.len() > 0 {
        lemma_joined_frame(m, n, keys.drop_last());
        assert(m[keys[keys.len() - 1]] == n[keys[keys.len() - 1]]);
    }
}

/// Joining a prefix of `keys` gives no more than joining all of them.
pub proof fn lemma_joined_prefix<T>(m: Map<u64, Seq<T>>, keys: Seq<u64>, n: int)
    requires
        0 <= n <= keys.len(),
    ensures
        joined(m, keys.take(n)).len() <= joined(m, keys).len(),
    decreases keys.len(),
{
    if n == keys.len() {
        assert(keys.take(n) =~= keys);
    } else {
        lemma_joined_prefix(m, keys.drop_last(), n);
        assert(keys.drop_last().take(n) =~= keys.take(n));
    }
}

/// Pooling commutes with applying a function to what is pooled: joined in the
/// same order, the mapped lists are the map of the joined lists.
pub proof fn lemma_joined_map<T, U>(m: Map<u64, Seq<T>>, f: spec_fn(T) -> U, keys: Seq<u64>)
    requires
        forall|i: int| 0 <= i < keys.len() ==> m.contains_key(#[trigger] keys[i]),
    ensures
        joined(map_lists(m, f), keys) == joined(m, keys).map_values(f),
    decreases keys.len(),
{
    if keys.len() > 0 {
        assert forall|i: int| 0 <= i < keys.drop_last().len() implies m.contains_key(
            #[trigger] keys.drop_last()[i],
        ) by {
            assert(keys.drop_last()[i] == keys[i]);
        }
        lemma_joined_map(m, f, keys.drop_last());
        assert(m.contains_key(keys[keys.len() - 1]));
    }
    assert(joined(map_lists(m, f), keys) =~= joined(m, keys).map_values(f));
}

} // verus!
