use vstd::prelude::*;
use crate::matcher::packed_linear_list::{first_key, PackedKey, pack_value, lemma_pack_injective};
use crate::sorting::{select, sorted_by, lemma_select_concat, lemma_select_none, lemma_select_all};

verus! {

/// Orders patterns by their length.
pub open spec fn len_key<T>() -> spec_fn((T, Seq<u8>)) -> int {
    |p: (T, Seq<u8>)| p.1.len() as int
}

/// The patterns of length `n`, in order.
pub open spec fn with_len<T>(ps: Seq<(T, Seq<u8>)>, n: int) -> Seq<(T, Seq<u8>)> {
    select(ps, len_key::<T>(), n)
}

/// The content type of the first pattern equal to `d`.
pub open spec fn first_equal<T>(ps: Seq<(T, Seq<u8>)>, d: Seq<u8>) -> Option<T>
    decreases ps.len(),
{
    if ps.len() == 0 {
        None
    } else {
        match first_equal(ps.drop_last(), d) {
            Some(t) => Some(t),
            None => if ps.last().1 == d { Some(ps.last().0) } else { None },
        }
    }
}

/// The content type of the last pattern equal to `d`.
pub open spec fn last_equal<T>(ps: Seq<(T, Seq<u8>)>, d: Seq<u8>) -> Option<T>
    decreases ps.len(),
{
    if ps.len() == 0 {
        None
    } else if ps.last().1 == d {
        Some(ps.last().0)
    } else {
        last_equal(ps.drop_last(), d)
    }
}

/// Keeping only the patterns of `d`'s length does not change the first
/// pattern equal to `d`.
pub proof fn lemma_first_equal_with_len<T>(ps: Seq<(T, Seq<u8>)>, d: Seq<u8>)
    ensures
        first_equal(with_len(ps, d.len() as int), d) == first_equal(ps, d),
    decreases ps.len(),
{
    if ps.len() > 0 {
        let init = ps.drop_last();
        let x = ps.last();
        lemma_first_equal_with_len(init, d);
        let g = with_len(init, d.len() as int);
        if x.1.len() == d.len() {
            assert(with_len(ps, d.len() as int) == g.push(x));
            assert(g.push(x).drop_last() == g);
        } else {
            assert(with_len(ps, d.len() as int) == g);
            assert(x.1 != d);
        }
    }
}

/// The packed keys of equal-length patterns find the same first pattern as
/// comparing bytes.
pub proof fn lemma_first_key_packed<T, K: PackedKey>(g: Seq<(T, Seq<u8>)>, d: Seq<u8>)
    requires
        d.len() <= K::WIDTH,
        forall|i: int| 0 <= i < g.len() ==> (#[trigger] g[i]).1.len() == d.len(),
    ensures
        first_key(g.map_values(|p: (T, Seq<u8>)| (K::spec_pack(p.1), p.0)), K::spec_pack(d)) == first_equal(g, d),
    decreases g.len(),
{
    if g.len() > 0 {
        let f = |p: (T, Seq<u8>)| (K::spec_pack(p.1), p.0);
        let init = g.drop_last();
        lemma_first_key_packed::<T, K>(init, d);
        assert(g.map_values(f).drop_last() == init.map_values(f));
        let x = g.last();
        K::lemma_pack(x.1);
        K::lemma_pack(d);
        K::lemma_value_injective(K::spec_pack(x.1), K::spec_pack(d));
        lemma_pack_injective(x.1, d, K::WIDTH as nat);
    }
}

/// In a list sorted by length, the patterns of length `n` are the run that
/// starts after the shorter ones and ends before the longer ones.
pub proof fn lemma_run_is_group<T>(ps: Seq<(T, Seq<u8>)>, n: int, start: int, end: int)
    requires
        0 <= start <= end <= ps.len(),
        forall|i: int| 0 <= i < start ==> (#[trigger] ps[i]).1.len() < n,
        forall|i: int| start <= i < end ==> (#[trigger] ps[i]).1.len() == n,
        forall|i: int| end <= i < ps.len() ==> (#[trigger] ps[i]).1.len() > n,
    ensures
        with_len(ps, n) == ps.subrange(start, end),
{
    let key = len_key::<T>();
    let a = ps.take(start);
    let b = ps.subrange(start, end);
    let c = ps.skip(end);
    assert(ps == a + b + c);
    lemma_select_concat(a + b, c, key, n);
    lemma_select_concat(a, b, key, n);
    assert forall|i: int| 0 <= i < a.len() implies key(#[trigger] a[i]) != n by {}
    lemma_select_none(a, key, n);
    assert forall|i: int| 0 <= i < c.len() implies key(#[trigger] c[i]) != n by {
        assert(c[i] == ps[end + i]);
    }
    lemma_select_none(c, key, n);
    assert forall|i: int| 0 <= i < b.len() implies key(#[trigger] b[i]) == n by {
        assert(b[i] == ps[start + i]);
    }
    lemma_select_all(b, key, n);
}

} // verus!

verus! {

/// The last pattern equal to `d` is among the patterns of `d`'s length.
pub proof fn lemma_last_equal_with_len<T>(ps: Seq<(T, Seq<u8>)>, d: Seq<u8>)
    ensures
        last_equal(with_len(ps, d.len() as int), d) == last_equal(ps, d),
    decreases ps.len(),
{
    if ps.len() > 0 {
        let init = ps.drop_last();
        let x = ps.last();
        lemma_last_equal_with_len(init, d);
        let g = with_len(init, d.len() as int);
        if x.1.len() == d.len() {
            assert(with_len(ps, d.len() as int) == g.push(x));
            assert(g.push(x).drop_last() == g);
        } else {
            assert(with_len(ps, d.len() as int) == g);
        }
    }
}

pub proof fn lemma_select_len<V>(s: Seq<V>, key: spec_fn(V) -> int, k: int)
    ensures
        select(s, key, k).len() <= s.len(),
        (exists|i: int| 0 <= i < s.len() && key(#[trigger] s[i]) == k) <==> select(s, key, k).len() > 0,
    decreases s.len(),
{
    if s.len() > 0 {
        lemma_select_len(s.drop_last(), key, k);
        if exists|i: int| 0 <= i < s.len() && key(#[trigger] s[i]) == k {
            let i = choose|i: int| 0 <= i < s.len() && key(#[trigger] s[i]) == k;
            if i < s.len() - 1 {
                assert(s.drop_last()[i] == s[i]);
            }
        }
        if exists|i: int| 0 <= i < s.len() - 1 && key(#[trigger] s.drop_last()[i]) == k {
            let i = choose|i: int| 0 <= i < s.len() - 1 && key(#[trigger] s.drop_last()[i]) == k;
            assert(s[i] == s.drop_last()[i]);
        }
    }
}

} // verus!
