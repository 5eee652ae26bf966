//! The order of names and numbers, and a stable sort by a key.

use crate::changelog::parsing_utils::chars_of;
use crate::changelog::seq_utils::{items_view, same_items};
use vstd::prelude::*;

verus! {

/// What an item is ordered by: a number or a name.
pub enum SortKey {
    Number(u64),
    Name(Seq<char>),
}

/// Whether the name `a` comes before the name `b`, or is the same: the
/// lexicographic order of their code points. A proper prefix comes first.
pub open spec fn name_le(a: Seq<char>, b: Seq<char>) -> bool
    decreases a.len(),
{
    if a.len() == 0 {
        true
    } else if b.len() == 0 {
        false
    } else if a[0] != b[0] {
        a[0] < b[0]
    } else {
        name_le(a.drop_first(), b.drop_first())
    }
}

/// Whether the key `a` comes before the key `b`, or ties with it. Numbers
/// go by their value, names by [`name_le`], and a number before a name.
pub open spec fn key_le(a: SortKey, b: SortKey) -> bool {
    match (a, b) {
        (SortKey::Number(x), SortKey::Number(y)) => x <= y,
        (SortKey::Name(x), SortKey::Name(y)) => name_le(x, y),
        (SortKey::Number(_), SortKey::Name(_)) => true,
        (SortKey::Name(_), SortKey::Number(_)) => false,
    }
}

/// Of two names, one comes before the other or they are the same.
pub proof fn lemma_name_le_total(a: Seq<char>, b: Seq<char>)
    ensures
        name_le(a, b) || name_le(b, a),
    decreases a.len(),
{
    if a.len() > 0 && b.len() > 0 && a[0] == b[0] {
        lemma_name_le_total(a.drop_first(), b.drop_first());
    }
}

/// The order of names is transitive.
pub proof fn lemma_name_le_transitive(a: Seq<char>, b: Seq<char>, c: Seq<char>)
    requires
        name_le(a, b),
        name_le(b, c),
    ensures
        name_le(a, c),
    decreases a.len(),
{
    if a.len() > 0 && b.len() > 0 && c.len() > 0 && a[0] == b[0] && b[0] == c[0] {
        lemma_name_le_transitive(a.drop_first(), b.drop_first(), c.drop_first());
    }
}

/// Two names that come before each other are the same name.
pub proof fn lemma_name_le_antisymmetric(a: Seq<char>, b: Seq<char>)
    requires
        name_le(a, b),
        name_le(b, a),
    ensures
        a == b,
    decreases a.len(),
{
    if a.len() > 0 && b.len() > 0 {
        let x = a.drop_first();
        let y = b.drop_first();
        assert(a[0] == b[0]);
        assert(name_le(x, y));
        assert(name_le(y, x));
        lemma_name_le_antisymmetric(x, y);
        assert(a.len() == b.len());
        assert forall|i: int| 0 <= i < a.len() implies a[i] == b[i] by {
            if i > 0 {
                assert(a[i] == x[i - 1]);
                assert(b[i] == y[i - 1]);
            }
        }
        assert(a =~= b);
    } else {
        assert(a.len() == 0 && b.len() == 0);
        assert(a =~= b);
    }
}

/// Names that agree on their first `i` characters are ordered as what
/// follows those characters.
pub proof fn lemma_name_le_skip(a: Seq<char>, b: Seq<char>, i: int)
    requires
        0 <= i <= a.len(),
        i <= b.len(),
        a.take(i) == b.take(i),
    ensures
        name_le(a, b) == name_le(a.skip(i), b.skip(i)),
    decreases i,
{
    if i == 0 {
        assert(a.skip(0) == a);
        assert(b.skip(0) == b);
    } else {
        assert(a[0] == a.take(i)[0]);
        assert(b[0] == b.take(i)[0]);
        let x = a.drop_first();
        let y = b.drop_first();
        let xt = x.take(i - 1);
        let yt = y.take(i - 1);
        assert(xt == yt) by {
            assert forall|j: int| 0 <= j < i - 1 implies #[trigger] xt[j] == yt[j] by {
                assert(xt[j] == a.take(i)[j + 1]);
                assert(yt[j] == b.take(i)[j + 1]);
            }
        }
        lemma_name_le_skip(x, y, i - 1);
        assert(x.skip(i - 1) == a.skip(i));
        assert(y.skip(i - 1) == b.skip(i));
    }
}

/// Of two keys, one comes before the other or they tie.
pub proof fn lemma_key_le_total(a: SortKey, b: SortKey)
    ensures
        key_le(a, b) || key_le(b, a),
{
    match (a, b) {
        (SortKey::Name(x), SortKey::Name(y)) => lemma_name_le_total(x, y),
        _ => {},
    }
}

/// The order of keys is transitive.
pub proof fn lemma_key_le_transitive(a: SortKey, b: SortKey, c: SortKey)
    requires
        key_le(a, b),
        key_le(b, c),
    ensures
        key_le(a, c),
{
    match (a, b, c) {
        (SortKey::Name(x), SortKey::Name(y), SortKey::Name(z)) => lemma_name_le_transitive(
            x,
            y,
            z,
        ),
        _ => {},
    }
}

/// Decides whether the name `a` comes before the name `b` or is the same.
pub fn names_in_order(a: &str, b: &str) -> (r: bool)
    ensures
        r == name_le(a@, b@),
{
    let x = chars_of(a);
    let y = chars_of(b);
    let mut i: usize = 0;
    assert(x@.take(0) == y@.take(0));
    while i < x.len() && i < y.len() && x[i] == y[i]
        invariant
            i <= x.len(),
            i <= y.len(),
            x@.take(i as int) == y@.take(i as int),
        decreases x.len() - i,
    {
        assert(x@.take(i + 1) == x@.take(i as int).push(x@[i as int]));
        assert(y@.take(i + 1) == y@.take(i as int).push(y@[i as int]));
        i += 1;
    }
    proof {
        lemma_name_le_skip(x@, y@, i as int);
        if i < x.len() && i < y.len() {
            assert(x@.skip(i as int)[0] == x@[i as int]);
            assert(y@.skip(i as int)[0] == y@[i as int]);
        }
    }
    if i == x.len() {
        true
    } else if i == y.len() {
        false
    } else {
        x[i] < y[i]
    }
}

/// Where an item with key `k` goes into the sorted sequence `t`: behind the
/// last item whose key comes before `k` or ties with it.
pub open spec fn insert_pos<T>(t: Seq<T>, k: SortKey, key: spec_fn(T) -> SortKey) -> int
    decreases t.len(),
{
    if t.len() == 0 {
        0
    } else if key_le(key(t.last()), k) {
        t.len() as int
    } else {
        insert_pos(t.drop_last(), k, key)
    }
}

/// The items of `s` in the order of their keys, items with tying keys in
/// the order in which they stand in `s`.
pub open spec fn stable_sorted<T>(s: Seq<T>, key: spec_fn(T) -> SortKey) -> Seq<T>
    decreases s.len(),
{
    if s.len() == 0 {
        s
    } else {
        let t = stable_sorted(s.drop_last(), key);
        t.insert(insert_pos(t, key(s.last()), key), s.last())
    }
}

/// Whether the keys of `s` never decrease from one item to a later one.
pub open spec fn is_sorted<T>(s: Seq<T>, key: spec_fn(T) -> SortKey) -> bool {
    forall|i: int, j: int| 0 <= i < j < s.len() ==> key_le(key(#[trigger] s[i]), key(#[trigger] s[j]))
}

/// The insertion position lies within the sequence or at its end.
pub proof fn lemma_insert_pos_bounds<T>(t: Seq<T>, k: SortKey, key: spec_fn(T) -> SortKey)
    ensures
        0 <= insert_pos(t, k, key) <= t.len(),
        forall|j: int| insert_pos(t, k, key) <= j < t.len() ==> !key_le(key(#[trigger] t[j]), k),
        insert_pos(t, k, key) > 0 ==> key_le(key(t[insert_pos(t, k, key) - 1]), k),
    decreases t.len(),
{
    if t.len() > 0 && !key_le(key(t.last()), k) {
        let u = t.drop_last();
        lemma_insert_pos_bounds(u, k, key);
        assert forall|j: int| insert_pos(t, k, key) <= j < t.len() implies !key_le(
            key(#[trigger] t[j]),
            k,
        ) by {
            if j < u.len() {
                assert(t[j] == u[j]);
            }
        }
    }
}

/// The result of a stable sort is in the order of the keys.
pub proof fn lemma_stable_sorted_is_sorted<T>(s: Seq<T>, key: spec_fn(T) -> SortKey)
    ensures
        is_sorted(stable_sorted(s, key), key),
    decreases s.len(),
{
    if s.len() > 0 {
        let t = stable_sorted(s.drop_last(), key);
        let x = s.last();
        let p = insert_pos(t, key(x), key);
        let r = t.insert(p, x);
        lemma_stable_sorted_is_sorted(s.drop_last(), key);
        lemma_insert_pos_bounds(t, key(x), key);
        assert forall|i: int, j: int| 0 <= i < j < r.len() implies key_le(
            key(#[trigger] r[i]),
            key(#[trigger] r[j]),
        ) by {
            if j < p {
                assert(r[i] == t[i] && r[j] == t[j]);
            } else if j == p {
                assert(r[i] == t[i]);
                if i < p - 1 {
                    assert(key_le(key(t[i]), key(t[p - 1])));
                    lemma_key_le_transitive(key(t[i]), key(t[p - 1]), key(x));
                }
            } else if i < p {
                assert(r[i] == t[i] && r[j] == t[j - 1]);
            } else if i == p {
                assert(r[j] == t[j - 1]);
                lemma_key_le_total(key(t[j - 1]), key(x));
            } else {
                assert(r[i] == t[i - 1] && r[j] == t[j - 1]);
            }
        }
    }
}

/// The result of a stable sort holds the items that were sorted, each as
/// often as before.
pub proof fn lemma_stable_sorted_is_permutation<T>(s: Seq<T>, key: spec_fn(T) -> SortKey)
    ensures
        stable_sorted(s, key).to_multiset() == s.to_multiset(),
    decreases s.len(),
{
    broadcast use vstd::seq_lib::group_to_multiset_ensures;

    if s.len() > 0 {
        let t = stable_sorted(s.drop_last(), key);
        let x = s.last();
        let p = insert_pos(t, key(x), key);
        lemma_stable_sorted_is_permutation(s.drop_last(), key);
        lemma_insert_pos_bounds(t, key(x), key);
        assert(s == s.drop_last().push(x));
    }
}

/// The test for the key `k`.
pub open spec fn has_key<T>(k: SortKey, key: spec_fn(T) -> SortKey) -> spec_fn(T) -> bool {
    |x: T| key(x) == k
}

/// Of a sequence that holds no item with the key `k`, no item has it.
proof fn lemma_no_item_has_key<T>(s: Seq<T>, k: SortKey, key: spec_fn(T) -> SortKey)
    requires
        forall|i: int| 0 <= i < s.len() ==> key(#[trigger] s[i]) != k,
    ensures
        s.filter(has_key(k, key)) == Seq::<T>::empty(),
    decreases s.len(),
{
    reveal(Seq::filter);
    if s.len() > 0 {
        let rest = s.drop_last();
        assert forall|i: int| 0 <= i < rest.len() implies key(#[trigger] rest[i]) != k by {
            assert(rest[i] == s[i]);
        }
        lemma_no_item_has_key(rest, k, key);
        assert(key(s[s.len() - 1]) != k);
    }
}

/// A stable sort keeps the items that have the same key in the order in
/// which they stood.
pub proof fn lemma_stable_sorted_keeps_ties<T>(s: Seq<T>, k: SortKey, key: spec_fn(T) -> SortKey)
    ensures
        stable_sorted(s, key).filter(has_key(k, key)) == s.filter(has_key(k, key)),
    decreases s.len(),
{
    let pred = has_key(k, key);
    if s.len() > 0 {
        let rest = s.drop_last();
        let t = stable_sorted(rest, key);
        let x = s.last();
        let p = insert_pos(t, key(x), key);
        lemma_stable_sorted_keeps_ties(rest, k, key);
        lemma_insert_pos_bounds(t, key(x), key);
        let head = t.take(p);
        let tail = t.skip(p);
        assert(t =~= head + tail);
        assert(t.insert(p, x) =~= head.push(x) + tail);
        assert(s =~= rest.push(x));
        Seq::filter_distributes_over_add(head, tail, pred);
        Seq::filter_distributes_over_add(head.push(x), tail, pred);
        head.lemma_filter_push(x, pred);
        rest.lemma_filter_push(x, pred);
        if key(x) == k {
            lemma_key_le_total(k, k);
            assert forall|i: int| 0 <= i < tail.len() implies key(#[trigger] tail[i]) != k by {
                assert(tail[i] == t[p + i]);
            }
            lemma_no_item_has_key(tail, k, key);
            assert(head.filter(pred) + Seq::<T>::empty() =~= head.filter(pred));
            assert(head.filter(pred).push(x) + Seq::<T>::empty() =~= head.filter(pred).push(x));
        }
    }
}

/// Two keys that come before each other are the same key.
pub proof fn lemma_key_le_antisymmetric(a: SortKey, b: SortKey)
    requires
        key_le(a, b),
        key_le(b, a),
    ensures
        a == b,
{
    match (a, b) {
        (SortKey::Name(x), SortKey::Name(y)) => lemma_name_le_antisymmetric(x, y),
        _ => {},
    }
}

/// Whether no two items of `s` have the same key.
pub open spec fn keys_are_distinct<T>(s: Seq<T>, key: spec_fn(T) -> SortKey) -> bool {
    forall|i: int, j: int|
        0 <= i < s.len() && 0 <= j < s.len() && i != j ==> key(#[trigger] s[i]) != key(
            #[trigger] s[j],
        )
}

/// The result of a stable sort holds the items that were sorted, and no
/// others.
pub proof fn lemma_stable_sorted_has_same_items<T>(s: Seq<T>, key: spec_fn(T) -> SortKey)
    ensures
        same_items(stable_sorted(s, key), s),
{
    broadcast use vstd::seq_lib::group_to_multiset_ensures;

    lemma_stable_sorted_is_permutation(s, key);
    let r = stable_sorted(s, key);
    assert forall|x: T| r.contains(x) <==> s.contains(x) by {
        assert(r.contains(x) <==> r.to_multiset().count(x) > 0);
        assert(s.contains(x) <==> s.to_multiset().count(x) > 0);
    }
}

/// Items with distinct keys have distinct keys after a stable sort.
pub proof fn lemma_stable_sorted_keeps_keys_distinct<T>(s: Seq<T>, key: spec_fn(T) -> SortKey)
    requires
        keys_are_distinct(s, key),
    ensures
        keys_are_distinct(stable_sorted(s, key), key),
    decreases s.len(),
{
    if s.len() > 0 {
        let rest = s.drop_last();
        let t = stable_sorted(rest, key);
        let x = s.last();
        let p = insert_pos(t, key(x), key);
        let r = t.insert(p, x);
        assert forall|i: int, j: int|
            0 <= i < rest.len() && 0 <= j < rest.len() && i != j implies key(#[trigger] rest[i])
            != key(#[trigger] rest[j]) by {
            assert(rest[i] == s[i] && rest[j] == s[j]);
        }
        lemma_stable_sorted_keeps_keys_distinct(rest, key);
        lemma_stable_sorted_has_same_items(rest, key);
        lemma_insert_pos_bounds(t, key(x), key);
        assert forall|i: int| 0 <= i < t.len() implies key(#[trigger] t[i]) != key(x) by {
            assert(t.contains(t[i]));
            assert(rest.contains(t[i]));
            let q = choose|q: int| 0 <= q < rest.len() && rest[q] == t[i];
            assert(s[q] == t[i]);
            assert(s[s.len() - 1] == x);
        }
        assert forall|i: int, j: int|
            0 <= i < r.len() && 0 <= j < r.len() && i != j implies key(#[trigger] r[i]) != key(
            #[trigger] r[j],
        ) by {
            let a = if i < p {
                i
            } else {
                i - 1
            };
            let b = if j < p {
                j
            } else {
                j - 1
            };
            if i == p {
                assert(r[i] == x);
                assert(r[j] == t[b]);
            } else if j == p {
                assert(r[j] == x);
                assert(r[i] == t[a]);
            } else {
                assert(r[i] == t[a]);
                assert(r[j] == t[b]);
            }
        }
    }
}

/// Items that have distinct keys after a stable sort had distinct keys
/// before it.
pub proof fn lemma_stable_sorted_reflects_distinct_keys<T>(s: Seq<T>, key: spec_fn(T) -> SortKey)
    requires
        keys_are_distinct(stable_sorted(s, key), key),
    ensures
        keys_are_distinct(s, key),
{
    let r = stable_sorted(s, key);
    lemma_stable_sorted_is_permutation(s, key);
    lemma_stable_sorted_has_same_items(s, key);
    assert(r.no_duplicates()) by {
        assert forall|i: int, j: int| 0 <= i < r.len() && 0 <= j < r.len() && i != j implies r[i]
            != r[j] by {
            assert(key(r[i]) != key(r[j]));
        }
    }
    r.lemma_multiset_has_no_duplicates();
    s.lemma_multiset_has_no_duplicates_conv();
    assert forall|i: int, j: int| 0 <= i < s.len() && 0 <= j < s.len() && i != j implies key(
        #[trigger] s[i],
    ) != key(#[trigger] s[j]) by {
        assert(s.contains(s[i]));
        assert(s.contains(s[j]));
        assert(r.contains(s[i]));
        assert(r.contains(s[j]));
        let p = choose|p: int| 0 <= p < r.len() && r[p] == s[i];
        let q = choose|q: int| 0 <= q < r.len() && r[q] == s[j];
        assert(s[i] != s[j]);
        assert(p != q);
        assert(key(r[p]) != key(r[q]));
    }
}

/// Items with distinct keys have one sorted arrangement only: two sorted
/// sequences of the same items are the same sequence.
pub proof fn lemma_sorted_arrangement_is_unique<T>(a: Seq<T>, b: Seq<T>, key: spec_fn(T) -> SortKey)
    requires
        is_sorted(a, key),
        is_sorted(b, key),
        keys_are_distinct(a, key),
        keys_are_distinct(b, key),
        same_items(a, b),
    ensures
        a == b,
    decreases a.len(),
{
    if a.len() == 0 {
        if b.len() > 0 {
            assert(b.contains(b[0]));
            assert(a.contains(b[0]));
        }
        assert(a =~= b);
    } else if b.len() == 0 {
        assert(a.contains(a[0]));
        assert(b.contains(a[0]));
    } else {
        let x = a.last();
        let y = b.last();
        assert(a.contains(x));
        assert(b.contains(y));
        assert(b.contains(x));
        assert(a.contains(y));
        let i = choose|i: int| 0 <= i < a.len() && a[i] == y;
        let j = choose|j: int| 0 <= j < b.len() && b[j] == x;
        assert(x == y) by {
            if i != a.len() - 1 && j != b.len() - 1 {
                assert(key_le(key(a[i]), key(a[a.len() - 1])));
                assert(key_le(key(b[j]), key(b[b.len() - 1])));
                lemma_key_le_antisymmetric(key(x), key(y));
            }
        }
        let a0 = a.drop_last();
        let b0 = b.drop_last();
        assert forall|z: T| a0.contains(z) <==> b0.contains(z) by {
            if a0.contains(z) {
                let k = choose|k: int| 0 <= k < a0.len() && a0[k] == z;
                assert(a[k] == z);
                assert(a.contains(z));
                assert(b.contains(z));
                let m = choose|m: int| 0 <= m < b.len() && b[m] == z;
                assert(key(a[k]) != key(a[a.len() - 1]));
                assert(m != b.len() - 1);
                assert(b0[m] == z);
            }
            if b0.contains(z) {
                let k = choose|k: int| 0 <= k < b0.len() && b0[k] == z;
                assert(b[k] == z);
                assert(b.contains(z));
                assert(a.contains(z));
                let m = choose|m: int| 0 <= m < a.len() && a[m] == z;
                assert(key(b[k]) != key(b[b.len() - 1]));
                assert(m != a.len() - 1);
                assert(a0[m] == z);
            }
        }
        assert(is_sorted(a0, key)) by {
            assert forall|i: int, j: int| 0 <= i < j < a0.len() implies key_le(
                key(#[trigger] a0[i]),
                key(#[trigger] a0[j]),
            ) by {
                assert(a0[i] == a[i] && a0[j] == a[j]);
            }
        }
        assert(is_sorted(b0, key)) by {
            assert forall|i: int, j: int| 0 <= i < j < b0.len() implies key_le(
                key(#[trigger] b0[i]),
                key(#[trigger] b0[j]),
            ) by {
                assert(b0[i] == b[i] && b0[j] == b[j]);
            }
        }
        assert(keys_are_distinct(a0, key)) by {
            assert forall|i: int, j: int|
                0 <= i < a0.len() && 0 <= j < a0.len() && i != j implies key(#[trigger] a0[i])
                != key(#[trigger] a0[j]) by {
                assert(a0[i] == a[i] && a0[j] == a[j]);
            }
        }
        assert(keys_are_distinct(b0, key)) by {
            assert forall|i: int, j: int|
                0 <= i < b0.len() && 0 <= j < b0.len() && i != j implies key(#[trigger] b0[i])
                != key(#[trigger] b0[j]) by {
                assert(b0[i] == b[i] && b0[j] == b[j]);
            }
        }
        lemma_sorted_arrangement_is_unique(a0, b0, key);
        assert(a =~= a0.push(x));
        assert(b =~= b0.push(y));
    }
}

/// What a stable sort yields does not depend on the order of what it is
/// given, where no two items have the same key: two sequences of the same
/// items are sorted to the same sequence.
pub proof fn lemma_sort_ignores_order<T>(a: Seq<T>, b: Seq<T>, key: spec_fn(T) -> SortKey)
    requires
        keys_are_distinct(a, key),
        keys_are_distinct(b, key),
        same_items(a, b),
    ensures
        stable_sorted(a, key) == stable_sorted(b, key),
{
    lemma_stable_sorted_is_sorted(a, key);
    lemma_stable_sorted_is_sorted(b, key);
    lemma_stable_sorted_keeps_keys_distinct(a, key);
    lemma_stable_sorted_keeps_keys_distinct(b, key);
    lemma_stable_sorted_has_same_items(a, key);
    lemma_stable_sorted_has_same_items(b, key);
    lemma_sorted_arrangement_is_unique(stable_sorted(a, key), stable_sorted(b, key), key);
}

/// Where items and their values have the same keys, an item goes to the
/// same position among the items as its value among the values.
pub proof fn lemma_insert_pos_view<T: View>(
    t: Seq<T>,
    k: SortKey,
    key: spec_fn(T) -> SortKey,
    vkey: spec_fn(T::V) -> SortKey,
)
    requires
        forall|x: T| #[trigger] key(x) == vkey(x@),
    ensures
        insert_pos(t, k, key) == insert_pos(items_view(t), k, vkey),
    decreases t.len(),
{
    if t.len() > 0 {
        assert(items_view(t).last() == t.last()@);
        assert(items_view(t).drop_last() == items_view(t.drop_last()));
        lemma_insert_pos_view(t.drop_last(), k, key, vkey);
    }
}

/// Where items and their values have the same keys, the values of the
/// sorted items are the sorted values of the items.
pub proof fn lemma_stable_sorted_view<T: View>(
    s: Seq<T>,
    key: spec_fn(T) -> SortKey,
    vkey: spec_fn(T::V) -> SortKey,
)
    requires
        forall|x: T| #[trigger] key(x) == vkey(x@),
    ensures
        items_view(stable_sorted(s, key)) == stable_sorted(items_view(s), vkey),
    decreases s.len(),
{
    if s.len() > 0 {
        let t = stable_sorted(s.drop_last(), key);
        let x = s.last();
        let p = insert_pos(t, key(x), key);
        lemma_stable_sorted_view(s.drop_last(), key, vkey);
        lemma_insert_pos_view(t, key(x), key, vkey);
        lemma_insert_pos_bounds(t, key(x), key);
        assert(items_view(s).last() == x@);
        assert(items_view(s).drop_last() == items_view(s.drop_last()));
        assert(items_view(t.insert(p, x)) == items_view(t).insert(p, x@));
    } else {
        assert(items_view(s) == Seq::<T::V>::empty());
        assert(items_view(stable_sorted(s, key)) == Seq::<T::V>::empty());
    }
}

/// An item with an order: what [`sort_stable`] sorts.
pub trait Ranked {
    /// The key that the item is ordered by.
    spec fn sort_key(&self) -> SortKey;

    /// Decides whether this item's key comes before that of `other` or ties
    /// with it.
    fn ranks_le(&self, other: &Self) -> (r: bool)
        ensures
            r == key_le(self.sort_key(), other.sort_key()),
    ;
}

/// The function that maps an item to its key.
pub open spec fn key_of<T: Ranked>() -> spec_fn(T) -> SortKey {
    |x: T| x.sort_key()
}

/// Sorts the items by their keys. The sort is stable: items with tying keys
/// stay in the order in which they stood.
pub fn sort_stable<T: Ranked>(v: &mut Vec<T>)
    ensures
        final(v)@ == stable_sorted(old(v)@, key_of::<T>()),
{
    let ghost key = key_of::<T>();
    let mut i: usize = 0;
    assert(v@.take(0) == stable_sorted(old(v)@.take(0), key));
    while i < v.len()
        invariant
            i <= v.len(),
            v.len() == old(v).len(),
            key == key_of::<T>(),
            v@.take(i as int) == stable_sorted(old(v)@.take(i as int), key),
            v@.skip(i as int) == old(v)@.skip(i as int),
        decreases v.len() - i,
    {
        let ghost before = v@;
        let ghost sorted = v@.take(i as int);
        assert(before[i as int] == before.skip(i as int)[0]);
        let x = v.remove(i);
        assert(x == old(v)@[i as int]);
        assert(v@.take(i as int) == sorted);
        let mut p: usize = i;
        assert(sorted.take(i as int) == sorted);
        while p > 0 && !v[p - 1].ranks_le(&x)
            invariant
                p <= i < v.len() + 1,
                key == key_of::<T>(),
                v@.take(i as int) == sorted,
                insert_pos(sorted, key(x), key) == insert_pos(sorted.take(p as int), key(x), key),
            decreases p,
        {
            assert(sorted.take(p as int).last() == v@[p - 1]);
            assert(sorted.take(p as int).drop_last() == sorted.take(p - 1));
            p -= 1;
        }
        proof {
            if p > 0 {
                assert(sorted.take(p as int).last() == v@[p - 1]);
            }
            assert(insert_pos(sorted, key(x), key) == p);
            let prefix = old(v)@.take(i + 1);
            assert(prefix.drop_last() == old(v)@.take(i as int));
            assert(prefix.last() == x);
        }
        v.insert(p, x);
        proof {
            assert(v@.take(i + 1) == sorted.insert(p as int, x));
            let rest = v@.skip(i + 1);
            let rest0 = old(v)@.skip(i + 1);
            assert(rest == rest0) by {
                assert forall|j: int| 0 <= j < rest.len() implies #[trigger] rest[j] == rest0[j] by {
                    assert(before.skip(i as int)[j + 1] == old(v)@.skip(i as int)[j + 1]);
                }
            }
        }
        i += 1;
    }
    assert(v@.take(v.len() as int) == v@);
    assert(old(v)@.take(old(v).len() as int) == old(v)@);
}

} // verus!
