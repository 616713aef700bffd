use vstd::prelude::*;
use crate::content::ContentType;

verus! {

/// The byte at `i`, or zero past the end of `b`.
pub open spec fn byte_or_zero(b: Seq<u8>, i: int) -> int {
    if 0 <= i < b.len() { b[i] as int } else { 0 }
}

/// The big-endian number formed by the first `w` bytes of `b`, padded with
/// zero bytes.
pub open spec fn pack_value(b: Seq<u8>, w: nat) -> int
    decreases w,
{
    if w == 0 {
        0
    } else {
        pack_value(b, (w - 1) as nat) * 256 + byte_or_zero(b, w - 1)
    }
}

pub open spec fn pow256(w: nat) -> int
    decreases w,
{
    if w == 0 { 1 } else { pow256((w - 1) as nat) * 256 }
}

proof fn lemma_pack_bound(b: Seq<u8>, w: nat)
    ensures
        0 <= pack_value(b, w) < pow256(w),
    decreases w,
{
    if w > 0 {
        lemma_pack_bound(b, (w - 1) as nat);
        let p = pack_value(b, (w - 1) as nat);
        let q = pow256((w - 1) as nat);
        let c = byte_or_zero(b, w - 1);
        assert(0 <= c < 256);
        assert(0 <= p * 256 + c < q * 256) by (nonlinear_arith)
            requires 0 <= p < q, 0 <= c < 256;
    }
}

proof fn lemma_digits(x: int, y: int, r1: int, r2: int)
    requires
        0 <= r1 < 256,
        0 <= r2 < 256,
        x * 256 + r1 == y * 256 + r2,
    ensures
        x == y,
        r1 == r2,
{
    assert(x == y) by (nonlinear_arith)
        requires 0 <= r1 < 256, 0 <= r2 < 256, x * 256 + r1 == y * 256 + r2;
}

/// Equal-length byte strings that fit the width pack to the same number
/// exactly when they are equal.
pub proof fn lemma_pack_injective(a: Seq<u8>, b: Seq<u8>, w: nat)
    requires
        a.len() == b.len(),
        a.len() <= w,
    ensures
        (pack_value(a, w) == pack_value(b, w)) <==> (a == b),
    decreases w,
{
    if pack_value(a, w) == pack_value(b, w) {
        lemma_pack_eq_prefix(a, b, w);
        assert(a =~= b);
    }
}

proof fn lemma_pack_eq_prefix(a: Seq<u8>, b: Seq<u8>, w: nat)
    requires
        a.len() == b.len(),
        pack_value(a, w) == pack_value(b, w),
    ensures
        forall|i: int| 0 <= i < w && i < a.len() ==> a[i] == b[i],
    decreases w,
{
    if w > 0 {
        lemma_pack_bound(a, (w - 1) as nat);
        lemma_pack_bound(b, (w - 1) as nat);
        lemma_digits(
            pack_value(a, (w - 1) as nat),
            pack_value(b, (w - 1) as nat),
            byte_or_zero(a, w - 1),
            byte_or_zero(b, w - 1),
        );
        lemma_pack_eq_prefix(a, b, (w - 1) as nat);
    }
}

/// A fixed-width integer key built from the leading bytes of a pattern.
pub trait PackedKey: Copy + Eq + Sized {
    /// Number of bytes that fit the key.
    const WIDTH: usize;
    const ZERO: Self;

    /// The key of `b`: its first `WIDTH` bytes, big-endian, zero-padded.
    spec fn spec_pack(b: Seq<u8>) -> Self;

    /// The number a key stands for.
    spec fn key_value(k: Self) -> int;

    fn width() -> (w: usize)
        ensures
            w == Self::WIDTH;

    fn zero() -> (z: Self)
        ensures
            z == Self::ZERO;

    /// Packs the first `WIDTH` bytes of `b` (zero-padded) big-endian.
    fn pack(b: &[u8]) -> (r: Self)
        ensures
            r == Self::spec_pack(b@),
            Self::key_value(r) == pack_value(b@, Self::WIDTH as nat);

    /// Key equality.
    fn same(&self, other: &Self) -> (r: bool)
        ensures
            r == (*self == *other);

    proof fn lemma_pack(b: Seq<u8>)
        ensures
            Self::key_value(Self::spec_pack(b)) == pack_value(b, Self::WIDTH as nat);

    proof fn lemma_value_injective(a: Self, b: Self)
        ensures
            (Self::key_value(a) == Self::key_value(b)) ==> a == b;
}

impl PackedKey for u32 {
    const WIDTH: usize = 4;
    const ZERO: Self = 0;

    open spec fn spec_pack(b: Seq<u8>) -> Self {
        pack_value(b, 4) as u32
    }

    open spec fn key_value(k: Self) -> int {
        k as int
    }

    fn width() -> (w: usize)
        ensures
            w == 4,
    {
        4
    }

    fn zero() -> (z: Self) {
        0
    }

    fn pack(b: &[u8]) -> (r: Self) {
        let mut r: u32 = 0;
        let mut i: usize = 0;
        while i < 4
            invariant
                i <= 4,
                r as int == pack_value(b@, i as nat),
            decreases 4 - i,
        {
            proof {
                lemma_pack_bound(b@, i as nat);
                lemma_pack_bound(b@, (i + 1) as nat);
                lemma_pow256_values();
                lemma_pow_mono(i as nat + 1, 4);
            }
            let c: u32 = if i < b.len() { b[i] as u32 } else { 0 };
            r = r * 256 + c;
            i = i + 1;
        }
        proof { lemma_pack_bound(b@, 4); lemma_pow256_values(); }
        r
    }

    fn same(&self, other: &Self) -> (r: bool) {
        *self == *other
    }

    proof fn lemma_pack(b: Seq<u8>) {
        lemma_pack_bound(b, 4);
        lemma_pow256_values();
    }

    proof fn lemma_value_injective(a: Self, b: Self) {
    }
}

impl PackedKey for u64 {
    const WIDTH: usize = 8;
    const ZERO: Self = 0;

    open spec fn spec_pack(b: Seq<u8>) -> Self {
        pack_value(b, 8) as u64
    }

    open spec fn key_value(k: Self) -> int {
        k as int
    }

    fn width() -> (w: usize)
        ensures
            w == 8,
    {
        8
    }

    fn zero() -> (z: Self) {
        0
    }

    fn pack(b: &[u8]) -> (r: Self) {
        let mut r: u64 = 0;
        let mut i: usize = 0;
        while i < 8
            invariant
                i <= 8,
                r as int == pack_value(b@, i as nat),
            decreases 8 - i,
        {
            proof {
                lemma_pack_bound(b@, (i + 1) as nat);
                lemma_pow256_values();
                lemma_pow_mono(i as nat + 1, 8);
            }
            let c: u64 = if i < b.len() { b[i] as u64 } else { 0 };
            r = r * 256 + c;
            i = i + 1;
        }
        proof { lemma_pack_bound(b@, 8); lemma_pow256_values(); }
        r
    }

    fn same(&self, other: &Self) -> (r: bool) {
        *self == *other
    }

    proof fn lemma_pack(b: Seq<u8>) {
        lemma_pack_bound(b, 8);
        lemma_pow256_values();
    }

    proof fn lemma_value_injective(a: Self, b: Self) {
    }
}

proof fn lemma_pow256_values()
    ensures
        pow256(4) == 4294967296,
        pow256(8) == 18446744073709551616,
{
    reveal_with_fuel(pow256, 9);
}

proof fn lemma_pow_mono(a: nat, b: nat)
    requires
        a <= b,
    ensures
        pow256(a) <= pow256(b),
    decreases b,
{
    if a < b {
        lemma_pow_mono(a, (b - 1) as nat);
        lemma_pow_pos((b - 1) as nat);
    }
}

proof fn lemma_pow_pos(a: nat)
    ensures
        pow256(a) >= 1,
    decreases a,
{
    if a > 0 {
        lemma_pow_pos((a - 1) as nat);
    }
}

/// Patterns as `(content type, bytes)`.
pub open spec fn pattern_view<T>(ps: Seq<(T, &'static [u8])>) -> Seq<(T, Seq<u8>)> {
    ps.map_values(|p: (T, &'static [u8])| (p.0, p.1@))
}

/// A list of patterns fits a packed list: 1 to 16 patterns, all of the same
/// non-zero length, which fits the key.
pub open spec fn fits_packed<T>(ps: Seq<(T, Seq<u8>)>, width: int) -> bool {
    &&& 1 <= ps.len() <= 16
    &&& 1 <= ps[0].1.len() <= width
    &&& forall|i: int| 0 <= i < ps.len() ==> (#[trigger] ps[i]).1.len() == ps[0].1.len()
}

/// The first entry whose key is `k`.
pub open spec fn first_key<K, T>(es: Seq<(K, T)>, k: K) -> Option<T>
    decreases es.len(),
{
    if es.len() == 0 {
        None
    } else {
        match first_key(es.drop_last(), k) {
            Some(t) => Some(t),
            None => if es.last().0 == k { Some(es.last().1) } else { None },
        }
    }
}

proof fn lemma_first_key_extend<K, T>(es: Seq<(K, T)>, k: K, i: int, j: int)
    requires
        0 <= i <= j <= es.len(),
        first_key(es.take(i), k) is Some,
    ensures
        first_key(es.take(j), k) == first_key(es.take(i), k),
    decreases j - i,
{
    if j > i {
        lemma_first_key_extend(es, k, i, j - 1);
        assert(es.take(j).drop_last() == es.take(j - 1));
    }
}

/// Up to 16 same-length patterns, each packed into a key, searched
/// linearly.
pub struct PackedLinearList<T: ContentType, K: PackedKey> {
    keys: Vec<K>,
    values: Vec<T>,
    len: usize,
    pat_len: usize,
}

impl<T: ContentType, K: PackedKey> PackedLinearList<T, K> {
    #[verifier::type_invariant]
    spec fn inv(self) -> bool {
        &&& self.keys@.len() == self.len
        &&& self.values@.len() == self.len
        &&& self.len <= 16
    }

    /// The `(key, content type)` entries, in pattern order.
    pub closed spec fn entries(&self) -> Seq<(K, T)> {
        Seq::new(self.len as nat, |i: int| (self.keys@[i], self.values@[i]))
    }

    pub closed spec fn spec_pattern_len(&self) -> usize {
        self.pat_len
    }

    /// Packs `patterns`; `None` when there are none or more than 16, when the
    /// first is empty or longer than the key, or when their lengths differ.
    pub fn new(patterns: &[(T, &'static [u8])]) -> (r: Option<Self>)
        ensures
            r is Some <==> fits_packed(pattern_view(patterns@), K::WIDTH as int),
            r matches Some(l) ==> l.entries() == pattern_view(patterns@).map_values(
                |p: (T, Seq<u8>)| (K::spec_pack(p.1), p.0),
            ) && l.spec_pattern_len() == patterns@[0].1@.len(),
    {
        let ghost pv = pattern_view(patterns@);
        if patterns.len() == 0 || patterns.len() > 16 {
            return None;
        }
        let pat_len = patterns[0].1.len();
        if pat_len == 0 || pat_len > K::width() {
            return None;
        }
        let mut i: usize = 0;
        while i < patterns.len()
            invariant
                pv == pattern_view(patterns@),
                i <= patterns@.len(),
                pat_len == patterns@[0].1@.len(),
                forall|j: int| 0 <= j < i ==> (#[trigger] pv[j]).1.len() == pat_len,
            decreases patterns@.len() - i,
        {
            if patterns[i].1.len() != pat_len {
                assert(pv[i as int].1.len() != pv[0].1.len());
                return None;
            }
            i = i + 1;
        }
        let mut keys: Vec<K> = Vec::new();
        let mut values: Vec<T> = Vec::new();
        let mut len: usize = 0;
        let ghost target = pv.map_values(|p: (T, Seq<u8>)| (K::spec_pack(p.1), p.0));
        while len < patterns.len()
            invariant
                pv == pattern_view(patterns@),
                target == pv.map_values(|p: (T, Seq<u8>)| (K::spec_pack(p.1), p.0)),
                len <= patterns@.len() <= 16,
                keys@.len() == len,
                values@.len() == len,
                forall|j: int| 0 <= j < len ==> (keys@[j], values@[j]) == #[trigger] target[j],
            decreases patterns@.len() - len,
        {
            let (ct, data) = patterns[len];
            keys.push(K::pack(data));
            values.push(ct);
            len = len + 1;
        }
        let r = Self { keys, values, len, pat_len };
        assert(r.entries() =~= target);
        Some(r)
    }

    /// Length of the patterns the list holds.
    pub fn pattern_len(&self) -> (r: usize)
        ensures
            r == self.spec_pattern_len(),
    {
        self.pat_len
    }

    /// The content type of the first pattern whose key is `k`.
    pub fn find(&self, k: K) -> (r: Option<T>)
        ensures
            r == first_key(self.entries(), k),
    {
        proof { use_type_invariant(self); }
        let ghost es = self.entries();
        let mut i: usize = 0;
        proof { assert(es.take(0) == Seq::<(K, T)>::empty()); }
        while i < self.len
            invariant
                es == self.entries(),
                self.keys@.len() == self.len,
                self.values@.len() == self.len,
                i <= self.len,
                first_key(es.take(i as int), k) is None,
            decreases self.len - i,
        {
            assert(es.take(i + 1).drop_last() == es.take(i as int));
            assert(es.take(i + 1).last() == es[i as int]);
            if self.keys[i].same(&k) {
                proof {
                    lemma_first_key_extend(es, k, i + 1, es.len() as int);
                    assert(es.take(es.len() as int) == es);
                }
                return Some(self.values[i]);
            }
            i = i + 1;
        }
        assert(es.take(i as int) == es);
        None
    }
}

} // verus!
