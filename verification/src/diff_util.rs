use vstd::prelude::*;

use crate::names::{
    compare_names, lemma_name_lt_asymmetric, lemma_name_lt_irreflexive, lemma_name_lt_transitive,
    name_lt, NameOrder,
};

verus! {

/// Where a value was found when two sides are compared: on the left only,
/// on the right only, or on both.
#[derive(Clone, Copy, Debug, PartialEq, Eq, Hash)]
pub enum LeftRightBoth<T> {
    Left(T),
    Right(T),
    Both(T, T),
}

impl<T: DeepView> DeepView for LeftRightBoth<T> {
    type V = LeftRightBoth<T::V>;

    open spec fn deep_view(&self) -> Self::V {
        match self {
            LeftRightBoth::Left(l) => LeftRightBoth::Left(l.deep_view()),
            LeftRightBoth::Right(r) => LeftRightBoth::Right(r.deep_view()),
            LeftRightBoth::Both(l, r) => LeftRightBoth::Both(l.deep_view(), r.deep_view()),
        }
    }
}

/// `x` with `right` recorded as the value on the right-hand side.
pub open spec fn spec_with_right<T>(x: LeftRightBoth<T>, right: T) -> LeftRightBoth<T> {
    match x {
        LeftRightBoth::Left(l) => LeftRightBoth::Both(l, right),
        LeftRightBoth::Right(_) => LeftRightBoth::Right(right),
        LeftRightBoth::Both(l, _) => LeftRightBoth::Both(l, right),
    }
}

impl<T> LeftRightBoth<T> {
    /// Records `right` as the value on the right-hand side, keeping any left value.
    pub fn with_right(self, right: T) -> (r: Self)
        ensures
            r == spec_with_right(self, right),
    {
        match self {
            LeftRightBoth::Left(l) => LeftRightBoth::Both(l, right),
            LeftRightBoth::Right(_) => LeftRightBoth::Right(right),
            LeftRightBoth::Both(left, _) => LeftRightBoth::Both(left, right),
        }
    }
}

/// The pairs of `s` with each key taken by its view.
pub open spec fn keyed<V>(s: Seq<(String, V)>) -> Seq<(Seq<char>, V)> {
    s.map_values(|e: (String, V)| (e.0@, e.1))
}

/// The map that an association list stands for; a later pair wins over an earlier one.
pub open spec fn assoc_map<K, V>(s: Seq<(K, V)>) -> Map<K, V>
    decreases s.len(),
{
    if s.len() == 0 {
        Map::empty()
    } else {
        assoc_map(s.drop_last()).insert(s.last().0, s.last().1)
    }
}

/// The keys of `s` stand in strictly ascending name order.
pub open spec fn keys_strictly_sorted<V>(s: Seq<(Seq<char>, V)>) -> bool {
    forall|i: int, j: int| 0 <= i < j < s.len() ==> name_lt(#[trigger] s[i].0, #[trigger] s[j].0)
}

/// No key occurs twice in `s`.
pub open spec fn keys_distinct<K, V>(s: Seq<(K, V)>) -> bool {
    forall|i: int, j: int| 0 <= i < j < s.len() ==> #[trigger] s[i].0 != #[trigger] s[j].0
}

/// The union of two maps, each value tagged with the side or sides it was found on.
pub open spec fn merge_maps<K, V>(a: Map<K, V>, b: Map<K, V>) -> Map<K, LeftRightBoth<V>> {
    Map::new(
        |k: K| a.contains_key(k) || b.contains_key(k),
        |k: K|
            if a.contains_key(k) && b.contains_key(k) {
                LeftRightBoth::Both(a[k], b[k])
            } else if a.contains_key(k) {
                LeftRightBoth::Left(a[k])
            } else {
                LeftRightBoth::Right(b[k])
            },
    )
}

/// A key is in the map of an association list exactly when some pair holds it.
pub proof fn lemma_assoc_map_contains<K, V>(s: Seq<(K, V)>, k: K)
    ensures
        assoc_map(s).contains_key(k) <==> exists|i: int| 0 <= i < s.len() && #[trigger] s[i].0 == k,
    decreases s.len(),
{
    if s.len() > 0 {
        lemma_assoc_map_contains(s.drop_last(), k);
        if assoc_map(s.drop_last()).contains_key(k) {
            let i = choose|i: int| 0 <= i < s.drop_last().len() && #[trigger] s.drop_last()[i].0 == k;
            assert(s[i].0 == k);
        }
        if exists|i: int| 0 <= i < s.len() && #[trigger] s[i].0 == k {
            let i = choose|i: int| 0 <= i < s.len() && #[trigger] s[i].0 == k;
            if i < s.len() - 1 {
                assert(s.drop_last()[i].0 == k);
            }
        }
    }
}

/// With distinct keys, the map gives each pair's value for its key.
pub proof fn lemma_assoc_map_index<K, V>(s: Seq<(K, V)>, i: int)
    requires
        keys_distinct(s),
        0 <= i < s.len(),
    ensures
        assoc_map(s).contains_key(s[i].0),
        assoc_map(s)[s[i].0] == s[i].1,
    decreases s.len(),
{
    lemma_assoc_map_contains(s, s[i].0);
    if i < s.len() - 1 {
        assert(keys_distinct(s.drop_last())) by {
            assert forall|a: int, b: int| 0 <= a < b < s.drop_last().len() implies #[trigger] s.drop_last()[a].0
                != #[trigger] s.drop_last()[b].0 by {
                assert(s[a].0 != s[b].0);
            }
        }
        lemma_assoc_map_index(s.drop_last(), i);
        assert(s[i].0 != s[s.len() - 1].0);
    }
}

/// Inserting a pair whose key is new adds that key to the map.
pub proof fn lemma_assoc_map_insert<K, V>(s: Seq<(K, V)>, i: int, e: (K, V))
    requires
        0 <= i <= s.len(),
        forall|j: int| 0 <= j < s.len() ==> #[trigger] s[j].0 != e.0,
    ensures
        assoc_map(s.insert(i, e)) =~= assoc_map(s).insert(e.0, e.1),
    decreases s.len(),
{
    if i == s.len() {
        assert(s.insert(i, e).drop_last() =~= s);
    } else {
        let t = s.insert(i, e);
        assert(t.drop_last() =~= s.drop_last().insert(i, e));
        assert(t.last() == s.last());
        lemma_assoc_map_insert(s.drop_last(), i, e);
        assert(s.last().0 != e.0);
    }
}

/// Replacing the value of a pair, with distinct keys, replaces that key's value in the map.
pub proof fn lemma_assoc_map_update<K, V>(s: Seq<(K, V)>, i: int, v: V)
    requires
        0 <= i < s.len(),
        keys_distinct(s),
    ensures
        assoc_map(s.update(i, (s[i].0, v))) =~= assoc_map(s).insert(s[i].0, v),
    decreases s.len(),
{
    let t = s.update(i, (s[i].0, v));
    if i == s.len() - 1 {
        assert(t.drop_last() =~= s.drop_last());
    } else {
        assert(t.drop_last() =~= s.drop_last().update(i, (s[i].0, v)));
        assert(keys_distinct(s.drop_last())) by {
            assert forall|a: int, b: int| 0 <= a < b < s.drop_last().len() implies #[trigger] s.drop_last()[a].0
                != #[trigger] s.drop_last()[b].0 by {
                assert(s[a].0 != s[b].0);
            }
        }
        lemma_assoc_map_update(s.drop_last(), i, v);
        assert(s[i].0 != s[s.len() - 1].0);
    }
}

/// Strictly sorted keys are distinct.
pub proof fn lemma_sorted_distinct<V>(s: Seq<(Seq<char>, V)>)
    requires
        keys_strictly_sorted(s),
    ensures
        keys_distinct(s),
{
    assert forall|i: int, j: int| 0 <= i < j < s.len() implies #[trigger] s[i].0 != #[trigger] s[j].0 by {
        assert(name_lt(s[i].0, s[j].0));
        lemma_name_lt_irreflexive(s[i].0);
    }
}

/// Dropping the last pair of a list with distinct keys drops its key from the map.
proof fn lemma_assoc_map_drop_last<K, V>(s: Seq<(K, V)>)
    requires
        keys_distinct(s),
        s.len() > 0,
    ensures
        assoc_map(s.drop_last()) =~= assoc_map(s).remove(s.last().0),
{
    lemma_assoc_map_contains(s.drop_last(), s.last().0);
    if assoc_map(s.drop_last()).contains_key(s.last().0) {
        let i = choose|i: int| 0 <= i < s.drop_last().len() && #[trigger] s.drop_last()[i].0 == s.last().0;
        assert(s[i].0 == s[s.len() - 1].0);
    }
}

/// A strictly sorted list stays strictly sorted without its last pair.
proof fn lemma_sorted_drop_last<V>(s: Seq<(Seq<char>, V)>)
    requires
        keys_strictly_sorted(s),
        s.len() > 0,
    ensures
        keys_strictly_sorted(s.drop_last()),
{
    assert forall|i: int, j: int| 0 <= i < j < s.drop_last().len() implies name_lt(
        #[trigger] s.drop_last()[i].0,
        #[trigger] s.drop_last()[j].0,
    ) by {
        assert(name_lt(s[i].0, s[j].0));
    }
}

/// Two strictly sorted lists that stand for the same map are the same list.
pub proof fn lemma_sorted_same_map_equal<V>(s1: Seq<(Seq<char>, V)>, s2: Seq<(Seq<char>, V)>)
    requires
        keys_strictly_sorted(s1),
        keys_strictly_sorted(s2),
        assoc_map(s1) == assoc_map(s2),
    ensures
        s1 == s2,
    decreases s1.len() + s2.len(),
{
    lemma_sorted_distinct(s1);
    lemma_sorted_distinct(s2);
    if s1.len() == 0 || s2.len() == 0 {
        if s1.len() > 0 {
            lemma_assoc_map_index(s1, s1.len() - 1);
        }
        if s2.len() > 0 {
            lemma_assoc_map_index(s2, s2.len() - 1);
        }
        assert(s1 =~= s2);
    } else {
        let k1 = s1.last().0;
        let k2 = s2.last().0;
        lemma_assoc_map_index(s1, s1.len() - 1);
        lemma_assoc_map_index(s2, s2.len() - 1);
        lemma_assoc_map_contains(s2, k1);
        lemma_assoc_map_contains(s1, k2);
        let j = choose|j: int| 0 <= j < s2.len() && #[trigger] s2[j].0 == k1;
        let i = choose|i: int| 0 <= i < s1.len() && #[trigger] s1[i].0 == k2;
        if j < s2.len() - 1 {
            assert(name_lt(s2[j].0, s2[s2.len() - 1].0));
            if i < s1.len() - 1 {
                assert(name_lt(s1[i].0, s1[s1.len() - 1].0));
                lemma_name_lt_asymmetric(k1, k2);
            } else {
                lemma_name_lt_irreflexive(k1);
            }
        }
        assert(k1 == k2);
        assert(s1.last() == s2.last());
        lemma_assoc_map_drop_last(s1);
        lemma_assoc_map_drop_last(s2);
        lemma_sorted_drop_last(s1);
        lemma_sorted_drop_last(s2);
        lemma_sorted_same_map_equal(s1.drop_last(), s2.drop_last());
        assert(s1 =~= s1.drop_last().push(s1.last()));
        assert(s2 =~= s2.drop_last().push(s2.last()));
    }
}

/// Where `key` stands in the sorted list `v`: its index if present, else the index
/// at which it would have to be inserted.
fn locate<V>(v: &Vec<(String, V)>, key: &String) -> (r: (usize, bool))
    requires
        keys_strictly_sorted(keyed(v@)),
    ensures
        r.0 <= v.len(),
        r.1 ==> r.0 < v.len() && v@[r.0 as int].0@ == key@,
        !r.1 ==> forall|j: int| 0 <= j < v.len() ==> #[trigger] v@[j].0@ != key@,
        !r.1 ==> forall|j: int| 0 <= j < r.0 ==> name_lt(#[trigger] v@[j].0@, key@),
        !r.1 ==> forall|j: int| r.0 <= j < v.len() ==> name_lt(key@, #[trigger] v@[j].0@),
{
    let mut i: usize = 0;
    while i < v.len()
        invariant
            i <= v.len(),
            keys_strictly_sorted(keyed(v@)),
            forall|j: int| 0 <= j < i ==> name_lt(#[trigger] v@[j].0@, key@),
        decreases v.len() - i,
    {
        match compare_names(&v[i].0, key) {
            NameOrder::Less => {},
            NameOrder::Equal => {
                return (i, true);
            },
            NameOrder::Greater => {
                proof {
                    assert forall|j: int| i <= j < v.len() implies name_lt(key@, #[trigger] v@[j].0@) by {
                        if j > i {
                            assert(name_lt(keyed(v@)[i as int].0, keyed(v@)[j].0));
                            lemma_name_lt_transitive(key@, v@[i as int].0@, v@[j].0@);
                        }
                    }
                    assert forall|j: int| 0 <= j < v.len() implies #[trigger] v@[j].0@ != key@ by {
                        if j < i {
                            lemma_name_lt_irreflexive(key@);
                        } else {
                            lemma_name_lt_irreflexive(key@);
                        }
                    }
                }
                return (i, false);
            },
        }
        i = i + 1;
    }
    proof {
        assert forall|j: int| 0 <= j < v.len() implies #[trigger] v@[j].0@ != key@ by {
            lemma_name_lt_irreflexive(key@);
        }
    }
    (i, false)
}

/// The facts that keep `keyed` of a vector in step with the vector's operations.
proof fn lemma_keyed_insert<V>(s: Seq<(String, V)>, i: int, e: (String, V))
    requires
        0 <= i <= s.len(),
    ensures
        keyed(s.insert(i, e)) =~= keyed(s).insert(i, (e.0@, e.1)),
{
}

proof fn lemma_keyed_update<V>(s: Seq<(String, V)>, i: int, e: (String, V))
    requires
        0 <= i < s.len(),
    ensures
        keyed(s.update(i, e)) =~= keyed(s).update(i, (e.0@, e.1)),
{
}

/// Inserting at the place `locate` found keeps the keys strictly sorted.
proof fn lemma_insert_keeps_sorted<V>(s: Seq<(Seq<char>, V)>, i: int, e: (Seq<char>, V))
    requires
        keys_strictly_sorted(s),
        0 <= i <= s.len(),
        forall|j: int| 0 <= j < i ==> name_lt(#[trigger] s[j].0, e.0),
        forall|j: int| i <= j < s.len() ==> name_lt(e.0, #[trigger] s[j].0),
    ensures
        keys_strictly_sorted(s.insert(i, e)),
{
    let t = s.insert(i, e);
    assert forall|a: int, b: int| 0 <= a < b < t.len() implies name_lt(#[trigger] t[a].0, #[trigger] t[b].0) by {
        if a < i && b < i {
            assert(t[a] == s[a] && t[b] == s[b]);
        } else if a < i && b == i {
            assert(t[a] == s[a]);
        } else if a < i {
            assert(t[a] == s[a] && t[b] == s[b - 1]);
            lemma_name_lt_transitive(s[a].0, e.0, s[b - 1].0);
        } else if a == i {
            assert(t[b] == s[b - 1]);
        } else {
            assert(t[a] == s[a - 1] && t[b] == s[b - 1]);
        }
    }
}

/// Merges two association lists keyed by name into one list, strictly sorted by
/// name, that tags each value with the side it came from; a key found on both
/// sides gets both values.
pub fn hashmap_diff<V>(a: Vec<(String, V)>, b: Vec<(String, V)>) -> (r: Vec<(String, LeftRightBoth<V>)>)
    ensures
        keys_strictly_sorted(keyed(r@)),
        assoc_map(keyed(r@)) == merge_maps(assoc_map(keyed(a@)), assoc_map(keyed(b@))),
{
    let mut result: Vec<(String, LeftRightBoth<V>)> = Vec::new();
    let mut a = a;
    let mut b = b;
    let ghost a0 = a@;
    let ghost b0 = b@;
    let ghost mut done: Seq<(String, V)> = Seq::empty();
    while a.len() > 0
        invariant
            keys_strictly_sorted(keyed(result@)),
            a0 =~= done + a@,
            assoc_map(keyed(result@)) =~= merge_maps(
                assoc_map(keyed(done)),
                Map::<Seq<char>, V>::empty(),
            ),
        decreases a.len(),
    {
        let (key, value) = a.remove(0);
        let ghost old_result = result@;
        let ghost old_done = done;
        proof {
            done = done.push((key, value));
            assert(a0 =~= done + a@);
            assert(keyed(done).drop_last() =~= keyed(old_done));
            assert(keyed(done).last() == (key@, value));
            lemma_sorted_distinct(keyed(result@));
        }
        let (pos, found) = locate(&result, &key);
        if found {
            let _old = result.remove(pos);
            result.insert(pos, (key, LeftRightBoth::Left(value)));
            proof {
                assert(result@ =~= old_result.update(pos as int, (key, LeftRightBoth::Left(value))));
                lemma_keyed_update(old_result, pos as int, (key, LeftRightBoth::Left(value)));
                assert(keyed(old_result)[pos as int].0 == key@);
                lemma_assoc_map_update(keyed(old_result), pos as int, LeftRightBoth::Left(value));
                assert(keys_strictly_sorted(keyed(result@))) by {
                    assert forall|i: int, j: int| 0 <= i < j < keyed(result@).len() implies name_lt(
                        #[trigger] keyed(result@)[i].0,
                        #[trigger] keyed(result@)[j].0,
                    ) by {
                        assert(keyed(result@)[i].0 == keyed(old_result)[i].0);
                        assert(keyed(result@)[j].0 == keyed(old_result)[j].0);
                    }
                }
            }
        } else {
            result.insert(pos, (key, LeftRightBoth::Left(value)));
            proof {
                lemma_keyed_insert(old_result, pos as int, (key, LeftRightBoth::Left(value)));
                assert forall|j: int| 0 <= j < keyed(old_result).len() implies #[trigger] keyed(
                    old_result,
                )[j].0 != key@ by {
                    assert(old_result[j].0@ != key@);
                }
                lemma_assoc_map_insert(keyed(old_result), pos as int, (key@, LeftRightBoth::Left(value)));
                assert forall|j: int| 0 <= j < pos implies name_lt(
                    #[trigger] keyed(old_result)[j].0,
                    key@,
                ) by {
                    assert(name_lt(old_result[j].0@, key@));
                }
                assert forall|j: int| pos <= j < keyed(old_result).len() implies name_lt(
                    key@,
                    #[trigger] keyed(old_result)[j].0,
                ) by {
                    assert(name_lt(key@, old_result[j].0@));
                }
                lemma_insert_keeps_sorted(keyed(old_result), pos as int, (key@, LeftRightBoth::Left(value)));
            }
        }
    }
    assert(done =~= a0);
    let ghost amap = assoc_map(keyed(a0));
    let ghost mut done_b: Seq<(String, V)> = Seq::empty();
    while b.len() > 0
        invariant
            keys_strictly_sorted(keyed(result@)),
            b0 =~= done_b + b@,
            assoc_map(keyed(result@)) =~= merge_maps(amap, assoc_map(keyed(done_b))),
        decreases b.len(),
    {
        let (key, value) = b.remove(0);
        let ghost old_result = result@;
        let ghost old_done = done_b;
        let ghost old_bmap = assoc_map(keyed(old_done));
        proof {
            done_b = done_b.push((key, value));
            assert(b0 =~= done_b + b@);
            assert(keyed(done_b).drop_last() =~= keyed(old_done));
            assert(keyed(done_b).last() == (key@, value));
            lemma_sorted_distinct(keyed(result@));
        }
        let (pos, found) = locate(&result, &key);
        if found {
            let old = result.remove(pos);
            let ghost old_entry = old.1;
            result.insert(pos, (key, old.1.with_right(value)));
            proof {
                let nv = spec_with_right(old_entry, value);
                assert(result@ =~= old_result.update(pos as int, (key, nv)));
                lemma_keyed_update(old_result, pos as int, (key, nv));
                assert(keyed(old_result)[pos as int].0 == key@);
                lemma_assoc_map_update(keyed(old_result), pos as int, nv);
                lemma_assoc_map_index(keyed(old_result), pos as int);
                assert(keyed(old_result)[pos as int].1 == old_entry);
                assert(assoc_map(keyed(result@)) =~= merge_maps(amap, old_bmap.insert(key@, value)));
                assert(keys_strictly_sorted(keyed(result@))) by {
                    assert forall|i: int, j: int| 0 <= i < j < keyed(result@).len() implies name_lt(
                        #[trigger] keyed(result@)[i].0,
                        #[trigger] keyed(result@)[j].0,
                    ) by {
                        assert(keyed(result@)[i].0 == keyed(old_result)[i].0);
                        assert(keyed(result@)[j].0 == keyed(old_result)[j].0);
                    }
                }
            }
        } else {
            result.insert(pos, (key, LeftRightBoth::Right(value)));
            proof {
                lemma_keyed_insert(old_result, pos as int, (key, LeftRightBoth::Right(value)));
                assert forall|j: int| 0 <= j < keyed(old_result).len() implies #[trigger] keyed(
                    old_result,
                )[j].0 != key@ by {
                    assert(old_result[j].0@ != key@);
                }
                lemma_assoc_map_insert(keyed(old_result), pos as int, (key@, LeftRightBoth::Right(value)));
                lemma_assoc_map_contains(keyed(old_result), key@);
                assert(!assoc_map(keyed(old_result)).contains_key(key@));
                assert(assoc_map(keyed(result@)) =~= merge_maps(amap, old_bmap.insert(key@, value)));
                assert forall|j: int| 0 <= j < pos implies name_lt(
                    #[trigger] keyed(old_result)[j].0,
                    key@,
                ) by {
                    assert(name_lt(old_result[j].0@, key@));
                }
                assert forall|j: int| pos <= j < keyed(old_result).len() implies name_lt(
                    key@,
                    #[trigger] keyed(old_result)[j].0,
                ) by {
                    assert(name_lt(key@, old_result[j].0@));
                }
                lemma_insert_keeps_sorted(keyed(old_result), pos as int, (key@, LeftRightBoth::Right(value)));
            }
        }
    }
    assert(done_b =~= b0);
    result
}

} // verus!
