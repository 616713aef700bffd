use vstd::prelude::*;

verus! {

/// Position at which an element of key `k` goes into `s` so that it lands
/// after every element whose key is `<= k`, assuming `s` is sorted.
pub open spec fn insert_pos<V>(s: Seq<V>, key: spec_fn(V) -> int, k: int) -> int
    decreases s.len(),
{
    if s.len() == 0 {
        0
    } else if key(s.last()) <= k {
        s.len() as int
    } else {
        insert_pos(s.drop_last(), key, k)
    }
}

/// Stable insertion sort by `key`: elements with equal keys keep their
/// relative order.
pub open spec fn stable_sort<V>(s: Seq<V>, key: spec_fn(V) -> int) -> Seq<V>
    decreases s.len(),
{
    if s.len() == 0 {
        Seq::empty()
    } else {
        let r = stable_sort(s.drop_last(), key);
        r.insert(insert_pos(r, key, key(s.last())), s.last())
    }
}

pub open spec fn sorted_by<V>(s: Seq<V>, key: spec_fn(V) -> int) -> bool {
    forall|i: int, j: int| 0 <= i <= j < s.len() ==> key(s[i]) <= key(s[j])
}

pub proof fn lemma_insert_pos<V>(s: Seq<V>, key: spec_fn(V) -> int, k: int)
    requires
        sorted_by(s, key),
    ensures
        0 <= insert_pos(s, key, k) <= s.len(),
        forall|i: int| 0 <= i < insert_pos(s, key, k) ==> key(#[trigger] s[i]) <= k,
        forall|i: int| insert_pos(s, key, k) <= i < s.len() ==> key(#[trigger] s[i]) > k,
    decreases s.len(),
{
    if s.len() > 0 && key(s.last()) > k {
        lemma_insert_pos(s.drop_last(), key, k);
        let p = insert_pos(s.drop_last(), key, k);
        assert forall|i: int| p <= i < s.len() implies key(#[trigger] s[i]) > k by {
            if i < s.len() - 1 {
                assert(s[i] == s.drop_last()[i]);
            }
        }
        assert forall|i: int| 0 <= i < p implies key(#[trigger] s[i]) <= k by {
            assert(s[i] == s.drop_last()[i]);
        }
    }
}

/// The elements of `s` whose key is `k`, in order.
pub open spec fn select<V>(s: Seq<V>, key: spec_fn(V) -> int, k: int) -> Seq<V>
    decreases s.len(),
{
    if s.len() == 0 {
        Seq::empty()
    } else if key(s.last()) == k {
        select(s.drop_last(), key, k).push(s.last())
    } else {
        select(s.drop_last(), key, k)
    }
}

pub proof fn lemma_select_concat<V>(a: Seq<V>, b: Seq<V>, key: spec_fn(V) -> int, k: int)
    ensures
        select(a + b, key, k) == select(a, key, k) + select(b, key, k),
    decreases b.len(),
{
    if b.len() == 0 {
        assert(a + b == a);
    } else {
        lemma_select_concat(a, b.drop_last(), key, k);
        assert((a + b).drop_last() == a + b.drop_last());
    }
}

pub proof fn lemma_select_none<V>(b: Seq<V>, key: spec_fn(V) -> int, k: int)
    requires
        forall|i: int| 0 <= i < b.len() ==> key(#[trigger] b[i]) != k,
    ensures
        select(b, key, k) == Seq::<V>::empty(),
    decreases b.len(),
{
    if b.len() > 0 {
        lemma_select_none(b.drop_last(), key, k);
    }
}

pub proof fn lemma_select_keys<V>(b: Seq<V>, key: spec_fn(V) -> int, k: int)
    ensures
        forall|i: int| 0 <= i < select(b, key, k).len() ==> key(#[trigger] select(b, key, k)[i]) == k,
    decreases b.len(),
{
    if b.len() > 0 {
        lemma_select_keys(b.drop_last(), key, k);
        let r = select(b.drop_last(), key, k);
        if key(b.last()) == k {
            assert forall|i: int| 0 <= i < r.len() + 1 implies key(#[trigger] r.push(b.last())[i]) == k by {
                if i < r.len() {
                    assert(r.push(b.last())[i] == r[i]);
                }
            }
        }
    }
}

pub proof fn lemma_select_all<V>(b: Seq<V>, key: spec_fn(V) -> int, k: int)
    requires
        forall|i: int| 0 <= i < b.len() ==> key(#[trigger] b[i]) == k,
    ensures
        select(b, key, k) == b,
    decreases b.len(),
{
    if b.len() > 0 {
        lemma_select_all(b.drop_last(), key, k);
        assert(b.drop_last().push(b.last()) == b);
    }
}

/// The stable sort is sorted, has the input's length, and keeps, for each
/// key, the elements of that key in their input order.
pub proof fn lemma_stable_sort<V>(s: Seq<V>, key: spec_fn(V) -> int)
    ensures
        sorted_by(stable_sort(s, key), key),
        stable_sort(s, key).len() == s.len(),
        forall|k: int| #[trigger] select(stable_sort(s, key), key, k) == select(s, key, k),
    decreases s.len(),
{
    if s.len() > 0 {
        let init = s.drop_last();
        let x = s.last();
        lemma_stable_sort(init, key);
        let r = stable_sort(init, key);
        lemma_insert_pos(r, key, key(x));
        let p = insert_pos(r, key, key(x));
        let t = r.insert(p, x);
        assert(t == stable_sort(s, key));
        assert forall|i: int, j: int| 0 <= i <= j < t.len() implies key(t[i]) <= key(t[j]) by {
            if i < p && j > p {
                assert(t[j] == r[j - 1]);
            } else if i > p {
                assert(t[i] == r[i - 1] && t[j] == r[j - 1]);
            } else if i == p && j > p {
                assert(t[j] == r[j - 1]);
            }
        }
        assert forall|k: int| #[trigger] select(t, key, k) == select(s, key, k) by {
            let a = r.take(p);
            let b = r.skip(p);
            assert(t == a + seq![x] + b);
            assert(r == a + b);
            lemma_select_concat(a + seq![x], b, key, k);
            lemma_select_concat(a, seq![x], key, k);
            lemma_select_concat(a, b, key, k);
            assert(seq![x].drop_last() == Seq::<V>::empty());
            assert(seq![x].last() == x);
            assert(select(Seq::<V>::empty(), key, k) == Seq::<V>::empty());
            assert(Seq::<V>::empty().push(x) == seq![x]);
            assert(select(r, key, k) == select(init, key, k));
            if key(x) == k {
                lemma_select_none(b, key, k);
                assert(select(seq![x], key, k) == seq![x]);
                assert(select(b, key, k) == Seq::<V>::empty());
                assert(select(t, key, k) == select(a, key, k) + seq![x]);
                assert(select(r, key, k) == select(a, key, k));
                assert(select(s, key, k) == select(init, key, k).push(x));
            } else {
                assert(select(seq![x], key, k) == Seq::<V>::empty());
                assert(select(t, key, k) == select(a, key, k) + select(b, key, k));
                assert(select(s, key, k) == select(init, key, k));
            }
        }
    }
}

proof fn lemma_insert_pos_map<A, B>(s: Seq<A>, f: spec_fn(A) -> B, ka: spec_fn(A) -> int, kb: spec_fn(B) -> int, k: int)
    requires
        forall|i: int| 0 <= i < s.len() ==> kb(f(#[trigger] s[i])) == ka(s[i]),
    ensures
        insert_pos(s.map_values(f), kb, k) == insert_pos(s, ka, k),
    decreases s.len(),
{
    if s.len() > 0 {
        assert(s.map_values(f).drop_last() == s.drop_last().map_values(f));
        assert(forall|i: int| 0 <= i < s.len() - 1 ==> s.drop_last()[i] == s[i]);
        lemma_insert_pos_map(s.drop_last(), f, ka, kb, k);
        assert(kb(f(s[s.len() - 1])) == ka(s[s.len() - 1]));
    }
}

/// Every element of the sorted sequence comes from the input.
pub proof fn lemma_stable_sort_elems<V>(s: Seq<V>, key: spec_fn(V) -> int)
    ensures
        forall|i: int| 0 <= i < stable_sort(s, key).len() ==> exists|j: int| 0 <= j < s.len() && s[j] == #[trigger] stable_sort(s, key)[i],
    decreases s.len(),
{
    lemma_stable_sort(s, key);
    if s.len() > 0 {
        let init = s.drop_last();
        lemma_stable_sort_elems(init, key);
        lemma_stable_sort(init, key);
        let r = stable_sort(init, key);
        lemma_insert_pos(r, key, key(s.last()));
        let p = insert_pos(r, key, key(s.last()));
        let t = r.insert(p, s.last());
        assert forall|i: int| 0 <= i < t.len() implies exists|j: int| 0 <= j < s.len() && s[j] == #[trigger] t[i] by {
            if i == p {
                assert(s[s.len() - 1] == t[i]);
            } else {
                let ri = if i < p { i } else { i - 1 };
                assert(t[i] == r[ri]);
                let j = choose|j: int| 0 <= j < init.len() && init[j] == r[ri];
                assert(s[j] == init[j]);
            }
        }
    }
}

/// Sorting commutes with a map that keeps the keys of the input's elements.
pub proof fn lemma_stable_sort_map<A, B>(s: Seq<A>, f: spec_fn(A) -> B, ka: spec_fn(A) -> int, kb: spec_fn(B) -> int)
    requires
        forall|i: int| 0 <= i < s.len() ==> kb(f(#[trigger] s[i])) == ka(s[i]),
    ensures
        stable_sort(s.map_values(f), kb) == stable_sort(s, ka).map_values(f),
    decreases s.len(),
{
    if s.len() > 0 {
        let init = s.drop_last();
        assert(s.map_values(f).drop_last() == init.map_values(f));
        assert(forall|i: int| 0 <= i < init.len() ==> init[i] == s[i]);
        lemma_stable_sort_map(init, f, ka, kb);
        let r = stable_sort(init, ka);
        lemma_stable_sort_elems(init, ka);
        assert forall|i: int| 0 <= i < r.len() implies kb(f(#[trigger] r[i])) == ka(r[i]) by {
            let j = choose|j: int| 0 <= j < init.len() && init[j] == r[i];
        }
        lemma_insert_pos_map(r, f, ka, kb, ka(s.last()));
        lemma_stable_sort(init, ka);
        let p = insert_pos(r, ka, ka(s.last()));
        lemma_insert_pos(r, ka, ka(s.last()));
        assert(kb(f(s[s.len() - 1])) == ka(s[s.len() - 1]));
        assert(r.insert(p, s.last()).map_values(f) == r.map_values(f).insert(p, f(s.last())));
    }
}

/// Orders pairs by their first component.
pub open spec fn first_key<V>() -> spec_fn((u64, V)) -> int {
    |p: (u64, V)| p.0 as int
}

/// Sorts `(key, value)` pairs by key; pairs with equal keys keep their
/// relative order.
pub fn sort_by_first<V>(items: Vec<(u64, V)>) -> (r: Vec<(u64, V)>)
    ensures
        r@ == stable_sort(items@, first_key::<V>()),
{
    let ghost orig = items@;
    let ghost key = first_key::<V>();
    let mut input = items;
    let total = input.len();
    let mut out: Vec<(u64, V)> = Vec::new();
    let mut consumed: usize = 0;
    proof { assert(orig.take(0) == Seq::<(u64, V)>::empty()); }
    while input.len() > 0
        invariant
            key == first_key::<V>(),
            consumed <= orig.len(),
            orig.len() == total,
            input@ == orig.skip(consumed as int),
            out@ == stable_sort(orig.take(consumed as int), key),
        decreases input@.len(),
    {
        let x = input.remove(0);
        assert(x == orig[consumed as int]);
        let k = x.0;
        let mut pos = out.len();
        assert(out@.take(pos as int) == out@);
        while pos > 0 && out[pos - 1].0 > k
            invariant
                key == first_key::<V>(),
                pos <= out@.len(),
                insert_pos(out@, key, k as int) == insert_pos(out@.take(pos as int), key, k as int),
            decreases pos,
        {
            assert(out@.take(pos as int).drop_last() == out@.take(pos - 1));
            pos = pos - 1;
        }
        proof {
            if pos == 0 {
                assert(out@.take(0) == Seq::<(u64, V)>::empty());
            } else {
                assert(out@.take(pos as int).last() == out@[pos - 1]);
            }
            assert(orig.take(consumed + 1).drop_last() == orig.take(consumed as int));
            assert(orig.take(consumed + 1).last() == x);
            assert(input@ == orig.skip(consumed + 1));
        }
        out.insert(pos, x);
        consumed = consumed + 1;
    }
    assert(orig.take(consumed as int) == orig);
    out
}

/// Sorting by two keys that order every pair alike gives the same result.
pub proof fn lemma_stable_sort_equiv<V>(s: Seq<V>, k1: spec_fn(V) -> int, k2: spec_fn(V) -> int)
    requires
        forall|x: V, y: V| #![trigger k1(x), k1(y)] (k1(x) <= k1(y)) == (k2(x) <= k2(y)),
    ensures
        stable_sort(s, k1) == stable_sort(s, k2),
    decreases s.len(),
{
    if s.len() > 0 {
        lemma_stable_sort_equiv(s.drop_last(), k1, k2);
        lemma_insert_pos_equiv(stable_sort(s.drop_last(), k1), k1, k2, s.last());
    }
}

proof fn lemma_insert_pos_equiv<V>(r: Seq<V>, k1: spec_fn(V) -> int, k2: spec_fn(V) -> int, x: V)
    requires
        forall|x: V, y: V| #![trigger k1(x), k1(y)] (k1(x) <= k1(y)) == (k2(x) <= k2(y)),
    ensures
        insert_pos(r, k1, k1(x)) == insert_pos(r, k2, k2(x)),
    decreases r.len(),
{
    if r.len() > 0 {
        lemma_insert_pos_equiv(r.drop_last(), k1, k2, x);
        assert((k1(r.last()) <= k1(x)) == (k2(r.last()) <= k2(x)));
    }
}

/// The stable sort holds exactly the elements of its input.
pub proof fn lemma_stable_sort_contains<V>(s: Seq<V>, key: spec_fn(V) -> int)
    ensures
        forall|x: V| #[trigger] stable_sort(s, key).contains(x) <==> s.contains(x),
    decreases s.len(),
{
    lemma_stable_sort(s, key);
    if s.len() > 0 {
        let init = s.drop_last();
        lemma_stable_sort_contains(init, key);
        lemma_stable_sort(init, key);
        let r = stable_sort(init, key);
        lemma_insert_pos(r, key, key(s.last()));
        let p = insert_pos(r, key, key(s.last()));
        let t = r.insert(p, s.last());
        assert forall|x: V| #[trigger] t.contains(x) <==> s.contains(x) by {
            if t.contains(x) {
                let j = choose|j: int| 0 <= j < t.len() && t[j] == x;
                if j < p {
                    assert(r[j] == x);
                    assert(r.contains(x));
                    let m = choose|m: int| 0 <= m < init.len() && init[m] == x;
                    assert(s[m] == x);
                } else if j == p {
                    assert(s[s.len() - 1] == x);
                } else {
                    assert(r[j - 1] == x);
                    assert(r.contains(x));
                    let m = choose|m: int| 0 <= m < init.len() && init[m] == x;
                    assert(s[m] == x);
                }
            }
            if s.contains(x) {
                let m = choose|m: int| 0 <= m < s.len() && s[m] == x;
                if m == s.len() - 1 {
                    assert(t[p] == x);
                } else {
                    assert(init[m] == x);
                    assert(init.contains(x));
                    assert(r.contains(x));
                    let j = choose|j: int| 0 <= j < r.len() && r[j] == x;
                    if j < p {
                        assert(t[j] == x);
                    } else {
                        assert(t[j + 1] == x);
                    }
                }
            }
        }
    }
}

} // verus!
