//! Order on texts, and association lists kept in the order of their keys.
//!
//! A list of pairs whose keys rise strictly holds every key once, so it
//! stands for a map, and two such lists stand for the same map only if they
//! are the same list.

use vstd::prelude::*;

verus! {

/// Where one value stands with respect to another in an order.
#[derive(Debug, Clone, Copy, PartialEq, Eq)]
pub enum Placement {
    Before,
    Same,
    After,
}

/// Whether `a` comes before `b` from the position `i` on, both texts being
/// the same before `i`: at the first position where they differ `a` holds
/// the smaller character, or `a` ends there and `b` does not.
pub open spec fn text_before_from(a: Seq<char>, b: Seq<char>, i: int) -> bool
    decreases a.len() - i,
{
    if i >= b.len() {
        false
    } else if i >= a.len() {
        true
    } else if i < 0 {
        false
    } else if a[i] != b[i] {
        a[i] < b[i]
    } else {
        text_before_from(a, b, i + 1)
    }
}

/// Whether the text `a` comes before the text `b`, character by character.
pub open spec fn text_before(a: Seq<char>, b: Seq<char>) -> bool {
    text_before_from(a, b, 0)
}

/// Where `a` stands with respect to `b`.
pub open spec fn text_placement(a: Seq<char>, b: Seq<char>) -> Placement {
    if a == b {
        Placement::Same
    } else if text_before(a, b) {
        Placement::Before
    } else {
        Placement::After
    }
}

/// No text comes before itself.
pub proof fn lemma_text_before_irreflexive(a: Seq<char>, i: int)
    requires
        0 <= i,
    ensures
        !text_before_from(a, a, i),
    decreases a.len() - i,
{
    if i < a.len() {
        lemma_text_before_irreflexive(a, i + 1);
    }
}

/// What comes before a text that comes before a third comes before the
/// third.
pub proof fn lemma_text_before_transitive(a: Seq<char>, b: Seq<char>, c: Seq<char>, i: int)
    requires
        0 <= i,
        text_before_from(a, b, i),
        text_before_from(b, c, i),
    ensures
        text_before_from(a, c, i),
    decreases a.len() - i,
{
    if i < a.len() && a[i] == b[i] && b[i] == c[i] {
        lemma_text_before_transitive(a, b, c, i + 1);
    }
}

/// Of two texts, not each comes before the other.
pub proof fn lemma_text_before_asymmetric(a: Seq<char>, b: Seq<char>, i: int)
    requires
        0 <= i,
        text_before_from(a, b, i),
    ensures
        !text_before_from(b, a, i),
    decreases a.len() - i,
{
    if i < a.len() && i < b.len() && a[i] == b[i] {
        lemma_text_before_asymmetric(a, b, i + 1);
    }
}

/// Of two different texts that are the same before `i`, one comes before
/// the other from `i` on.
pub proof fn lemma_text_before_total(a: Seq<char>, b: Seq<char>, i: int)
    requires
        0 <= i <= a.len(),
        i <= b.len(),
        a.take(i) == b.take(i),
        a != b,
    ensures
        text_before_from(a, b, i) || text_before_from(b, a, i),
    decreases a.len() - i,
{
    if i < a.len() && i < b.len() && a[i] == b[i] {
        assert(a.take(i + 1) =~= a.take(i).push(a[i]));
        assert(b.take(i + 1) =~= b.take(i).push(b[i]));
        lemma_text_before_total(a, b, i + 1);
    } else if i == a.len() && i == b.len() {
        assert(a.take(i) =~= a);
        assert(b.take(i) =~= b);
    }
}

/// Where the characters of `a` stand with respect to those of `b`.
pub fn compare_chars(a: &Vec<char>, b: &Vec<char>) -> (placement: Placement)
    ensures
        placement == text_placement(a@, b@),
        placement is Before <==> text_before(a@, b@),
        placement is Same <==> a@ == b@,
        placement is After <==> text_before(b@, a@),
{
    let mut i: usize = 0;
    loop
        invariant
            i <= a.len(),
            i <= b.len(),
            a@.take(i as int) == b@.take(i as int),
            text_before(a@, b@) == text_before_from(a@, b@, i as int),
            text_before(b@, a@) == text_before_from(b@, a@, i as int),
        decreases a.len() - i,
    {
        if i >= b.len() {
            if i >= a.len() {
                proof {
                    assert(a@.take(i as int) =~= a@);
                    assert(b@.take(i as int) =~= b@);
                }
                return Placement::Same;
            }
            proof {
                assert(a@.len() != b@.len());
            }
            return Placement::After;
        }
        if i >= a.len() {
            proof {
                assert(a@.len() != b@.len());
            }
            return Placement::Before;
        }
        let x = a[i];
        let y = b[i];
        if x != y {
            proof {
                assert(a@[i as int] != b@[i as int]);
            }
            if x < y {
                return Placement::Before;
            } else {
                return Placement::After;
            }
        }
        proof {
            assert(a@.take(i + 1) =~= a@.take(i as int).push(a@[i as int]));
            assert(b@.take(i + 1) =~= b@.take(i as int).push(b@[i as int]));
        }
        i += 1;
    }
}

/// The map that a list of pairs stands for: each key with the value of the
/// last pair that holds it.
pub open spec fn pairs_map<K, V>(pairs: Seq<(K, V)>) -> Map<K, V>
    decreases pairs.len(),
{
    if pairs.len() == 0 {
        Map::empty()
    } else {
        pairs_map(pairs.drop_last()).insert(pairs.last().0, pairs.last().1)
    }
}

/// Whether no key stands twice in a list of pairs.
pub open spec fn distinct_keys<K, V>(pairs: Seq<(K, V)>) -> bool {
    forall|i: int, j: int| 0 <= i < j < pairs.len() ==> pairs[i].0 != pairs[j].0
}

/// Whether `key` stands in a list of pairs.
pub open spec fn has_key<K, V>(pairs: Seq<(K, V)>, key: K) -> bool {
    exists|i: int| 0 <= i < pairs.len() && (#[trigger] pairs[i]).0 == key
}

/// The map of a list holds the keys of the list and no others.
pub proof fn lemma_pairs_map_keys<K, V>(pairs: Seq<(K, V)>, key: K)
    ensures
        pairs_map(pairs).contains_key(key) <==> has_key(pairs, key),
    decreases pairs.len(),
{
    if pairs.len() > 0 {
        let front = pairs.drop_last();
        lemma_pairs_map_keys(front, key);
        if has_key(front, key) {
            let i = choose|i: int| 0 <= i < front.len() && (#[trigger] front[i]).0 == key;
            assert(pairs[i].0 == key);
        }
        if pairs.last().0 == key {
            assert(pairs[pairs.len() - 1].0 == key);
        }
        if has_key(pairs, key) {
            let i = choose|i: int| 0 <= i < pairs.len() && (#[trigger] pairs[i]).0 == key;
            if i < pairs.len() - 1 {
                assert(front[i].0 == key);
            }
        }
    }
}

/// Where no key stands twice, the map of a list gives each key the value
/// that stands beside it.
pub proof fn lemma_pairs_map_value<K, V>(pairs: Seq<(K, V)>, i: int)
    requires
        distinct_keys(pairs),
        0 <= i < pairs.len(),
    ensures
        pairs_map(pairs).contains_key(pairs[i].0),
        pairs_map(pairs)[pairs[i].0] == pairs[i].1,
    decreases pairs.len(),
{
    let front = pairs.drop_last();
    if i < pairs.len() - 1 {
        assert(distinct_keys(front)) by {
            assert forall|a: int, b: int| 0 <= a < b < front.len() implies front[a].0
                != front[b].0 by {
                assert(pairs[a].0 != pairs[b].0);
            }
        }
        lemma_pairs_map_value(front, i);
        assert(pairs[i].0 != pairs[pairs.len() - 1].0);
    }
}

/// Two lists without repeated keys that hold the same pairs stand for the
/// same map.
pub proof fn lemma_pairs_map_same<K, V>(a: Seq<(K, V)>, b: Seq<(K, V)>)
    requires
        distinct_keys(a),
        distinct_keys(b),
        forall|i: int| 0 <= i < a.len() ==> b.contains(#[trigger] a[i]),
        forall|i: int| 0 <= i < b.len() ==> a.contains(#[trigger] b[i]),
    ensures
        pairs_map(a) == pairs_map(b),
{
    assert forall|key: K| pairs_map(a).contains_key(key) <==> pairs_map(b).contains_key(key) by {
        lemma_pairs_map_keys(a, key);
        lemma_pairs_map_keys(b, key);
        if has_key(a, key) {
            let i = choose|i: int| 0 <= i < a.len() && (#[trigger] a[i]).0 == key;
            assert(b.contains(a[i]));
            let j = choose|j: int| 0 <= j < b.len() && b[j] == a[i];
            assert(b[j].0 == key);
        }
        if has_key(b, key) {
            let i = choose|i: int| 0 <= i < b.len() && (#[trigger] b[i]).0 == key;
            assert(a.contains(b[i]));
            let j = choose|j: int| 0 <= j < a.len() && a[j] == b[i];
            assert(a[j].0 == key);
        }
    }
    assert forall|key: K| pairs_map(a).contains_key(key) implies pairs_map(a)[key] == pairs_map(
        b,
    )[key] by {
        lemma_pairs_map_keys(a, key);
        let i = choose|i: int| 0 <= i < a.len() && (#[trigger] a[i]).0 == key;
        assert(b.contains(a[i]));
        let j = choose|j: int| 0 <= j < b.len() && b[j] == a[i];
        lemma_pairs_map_value(a, i);
        lemma_pairs_map_value(b, j);
    }
    assert(pairs_map(a) =~= pairs_map(b));
}

/// A pair with a new key, put anywhere into a list without repeated keys,
/// adds its key and value to the map of the list.
pub proof fn lemma_pairs_map_insert<K, V>(pairs: Seq<(K, V)>, i: int, key: K, value: V)
    requires
        distinct_keys(pairs),
        0 <= i <= pairs.len(),
        !has_key(pairs, key),
    ensures
        distinct_keys(pairs.insert(i, (key, value))),
        pairs_map(pairs.insert(i, (key, value))) == pairs_map(pairs).insert(key, value),
{
    let longer = pairs.insert(i, (key, value));
    let pushed = pairs.push((key, value));
    assert(distinct_keys(longer)) by {
        assert forall|a: int, b: int| 0 <= a < b < longer.len() implies longer[a].0
            != longer[b].0 by {
            let x = if a < i {
                a
            } else {
                a - 1
            };
            let y = if b < i {
                b
            } else {
                b - 1
            };
            if a == i {
                assert(pairs[y].0 != key);
            } else if b == i {
                assert(pairs[x].0 != key);
            } else {
                assert(pairs[x].0 != pairs[y].0);
            }
        }
    }
    assert(distinct_keys(pushed)) by {
        assert forall|a: int, b: int| 0 <= a < b < pushed.len() implies pushed[a].0
            != pushed[b].0 by {
            if b == pairs.len() {
                assert(pairs[a].0 != key);
            } else {
                assert(pairs[a].0 != pairs[b].0);
            }
        }
    }
    assert forall|a: int| 0 <= a < longer.len() implies pushed.contains(#[trigger] longer[a]) by {
        if a < i {
            assert(pushed[a] == longer[a]);
        } else if a == i {
            assert(pushed[pairs.len() as int] == longer[a]);
        } else {
            assert(pushed[a - 1] == longer[a]);
        }
    }
    assert forall|a: int| 0 <= a < pushed.len() implies longer.contains(#[trigger] pushed[a]) by {
        if a == pairs.len() {
            assert(longer[i] == pushed[a]);
        } else if a < i {
            assert(longer[a] == pushed[a]);
        } else {
            assert(longer[a + 1] == pushed[a]);
        }
    }
    lemma_pairs_map_same(longer, pushed);
    assert(pushed.drop_last() =~= pairs);
}

/// A new value for the key at `i`, in a list without repeated keys, gives
/// that key the new value in the map of the list.
pub proof fn lemma_pairs_map_update<K, V>(pairs: Seq<(K, V)>, i: int, value: V)
    requires
        distinct_keys(pairs),
        0 <= i < pairs.len(),
    ensures
        distinct_keys(pairs.update(i, (pairs[i].0, value))),
        pairs_map(pairs.update(i, (pairs[i].0, value))) == pairs_map(pairs).insert(
            pairs[i].0,
            value,
        ),
{
    let key = pairs[i].0;
    let changed = pairs.update(i, (key, value));
    assert(distinct_keys(changed)) by {
        assert forall|a: int, b: int| 0 <= a < b < changed.len() implies changed[a].0
            != changed[b].0 by {
            assert(pairs[a].0 != pairs[b].0);
        }
    }
    let wanted = pairs_map(pairs).insert(key, value);
    assert forall|k: K| pairs_map(changed).contains_key(k) <==> wanted.contains_key(k) by {
        lemma_pairs_map_keys(changed, k);
        lemma_pairs_map_keys(pairs, k);
        if has_key(changed, k) {
            let j = choose|j: int| 0 <= j < changed.len() && (#[trigger] changed[j]).0 == k;
            assert(pairs[j].0 == k);
        }
        if has_key(pairs, k) {
            let j = choose|j: int| 0 <= j < pairs.len() && (#[trigger] pairs[j]).0 == k;
            assert(changed[j].0 == k);
        }
        if k == key {
            assert(changed[i].0 == k);
        }
    }
    assert forall|k: K| pairs_map(changed).contains_key(k) implies pairs_map(changed)[k]
        == wanted[k] by {
        lemma_pairs_map_keys(changed, k);
        let j = choose|j: int| 0 <= j < changed.len() && (#[trigger] changed[j]).0 == k;
        lemma_pairs_map_value(changed, j);
        if j != i {
            assert(pairs[j].0 != pairs[i].0);
            lemma_pairs_map_value(pairs, j);
        }
    }
    assert(pairs_map(changed) =~= wanted);
}

/// Whether the keys of a list of pairs rise strictly in the order `before`.
pub open spec fn rises<K, V>(pairs: Seq<(K, V)>, before: spec_fn(K, K) -> bool) -> bool {
    forall|i: int, j: int| 0 <= i < j < pairs.len() ==> before(pairs[i].0, pairs[j].0)
}

/// Whether `before` is a strict order: nothing comes before itself, and
/// what comes before something that comes before a third comes before
/// the third.
pub open spec fn is_strict_order<K>(before: spec_fn(K, K) -> bool) -> bool {
    &&& forall|x: K| !#[trigger] before(x, x)
    &&& forall|x: K, y: K, z: K| #[trigger] before(x, y) && #[trigger] before(y, z) ==> before(x, z)
}

/// The map of a list without its last pair is the map of the list
/// without the key of that pair, where no key stands twice.
pub proof fn lemma_pairs_map_front<K, V>(pairs: Seq<(K, V)>)
    requires
        distinct_keys(pairs),
        pairs.len() > 0,
    ensures
        distinct_keys(pairs.drop_last()),
        pairs_map(pairs.drop_last()) == pairs_map(pairs).remove(pairs.last().0),
{
    let front = pairs.drop_last();
    assert(distinct_keys(front)) by {
        assert forall|a: int, b: int| 0 <= a < b < front.len() implies front[a].0
            != front[b].0 by {
            assert(pairs[a].0 != pairs[b].0);
        }
    }
    lemma_pairs_map_keys(front, pairs.last().0);
    if has_key(front, pairs.last().0) {
        let i = choose|i: int| 0 <= i < front.len() && (#[trigger] front[i]).0 == pairs.last().0;
        assert(pairs[i].0 != pairs[pairs.len() - 1].0);
    }
    assert(pairs_map(front) =~= pairs_map(pairs).remove(pairs.last().0));
}

/// A map is kept by one list only: two lists whose keys rise strictly in
/// the same order, and which stand for the same map, are the same list.
pub proof fn lemma_one_rising_list<K, V>(
    a: Seq<(K, V)>,
    b: Seq<(K, V)>,
    before: spec_fn(K, K) -> bool,
)
    requires
        is_strict_order(before),
        rises(a, before),
        rises(b, before),
        pairs_map(a) == pairs_map(b),
    ensures
        a == b,
    decreases a.len(),
{
    assert(distinct_keys(a)) by {
        assert forall|i: int, j: int| 0 <= i < j < a.len() implies a[i].0 != a[j].0 by {
            assert(before(a[i].0, a[j].0));
        }
    }
    assert(distinct_keys(b)) by {
        assert forall|i: int, j: int| 0 <= i < j < b.len() implies b[i].0 != b[j].0 by {
            assert(before(b[i].0, b[j].0));
        }
    }
    if a.len() == 0 {
        if b.len() > 0 {
            lemma_pairs_map_value(b, 0);
        }
        assert(a =~= b);
    } else if b.len() == 0 {
        lemma_pairs_map_value(a, 0);
    } else {
        let la = a.len() - 1;
        let lb = b.len() - 1;
        lemma_pairs_map_value(a, la);
        lemma_pairs_map_value(b, lb);
        lemma_pairs_map_keys(b, a[la].0);
        lemma_pairs_map_keys(a, b[lb].0);
        let j = choose|j: int| 0 <= j < b.len() && (#[trigger] b[j]).0 == a[la].0;
        let i = choose|i: int| 0 <= i < a.len() && (#[trigger] a[i]).0 == b[lb].0;
        if j < lb {
            assert(before(b[j].0, b[lb].0));
            if i < la {
                assert(before(a[i].0, a[la].0));
                assert(before(a[la].0, a[la].0));
            }
        }
        assert(a[la].0 == b[lb].0);
        assert(a[la] == b[lb]);
        lemma_pairs_map_front(a);
        lemma_pairs_map_front(b);
        let fa = a.drop_last();
        let fb = b.drop_last();
        assert(rises(fa, before)) by {
            assert forall|x: int, y: int| 0 <= x < y < fa.len() implies before(
                fa[x].0,
                fa[y].0,
            ) by {
                assert(before(a[x].0, a[y].0));
            }
        }
        assert(rises(fb, before)) by {
            assert forall|x: int, y: int| 0 <= x < y < fb.len() implies before(
                fb[x].0,
                fb[y].0,
            ) by {
                assert(before(b[x].0, b[y].0));
            }
        }
        lemma_one_rising_list(fa, fb, before);
        assert(a =~= fa.push(a[la]));
        assert(b =~= fb.push(b[lb]));
    }
}

} // verus!
