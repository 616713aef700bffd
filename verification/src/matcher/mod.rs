pub mod fast_magic;
pub mod one;
pub mod packed_linear_list;
pub mod patterns;
pub mod table;
pub mod trie;

use vstd::prelude::*;
use crate::content::ContentType;
use crate::sorting::{first_key, lemma_select_all, lemma_stable_sort, lemma_stable_sort_map, select, sort_by_first, sorted_by, stable_sort};
use fast_magic::{fast_exact, fast_magic_accepts, fast_prefix, fast_try, group_fits, FastMagicMatcher};
use one::{is_prefix_of, OneMatcher};
use packed_linear_list::pattern_view;
use patterns::{first_equal, last_equal, len_key, lemma_first_equal_with_len, lemma_last_equal_with_len, lemma_select_len, with_len};
use table::{longest_prefix_last, trie_nodes, TrieTable};

verus! {

/// Finds which content type a byte string stands for, among a set of
/// patterns.
pub enum Matcher<T: ContentType> {
    /// No pattern: nothing matches.
    Empty,
    One(OneMatcher<T>),
    FastMagic(FastMagicMatcher<T>),
    Trie(TrieTable<T>),
}

impl<T: ContentType> Matcher<T> {
    /// What [`starts_with`](Self::starts_with) gives for `d`.
    pub open spec fn spec_starts_with(&self, d: Seq<u8>) -> Option<T> {
        if d.len() == 0 {
            None
        } else {
            match self {
                Matcher::Empty => None,
                Matcher::One(o) => if is_prefix_of(o.pattern(), d) { Some(o.spec_content_type()) } else { None },
                Matcher::FastMagic(f) => fast_prefix(f.spec_patterns(), d),
                Matcher::Trie(t) => longest_prefix_last(t.spec_patterns(), d),
            }
        }
    }

    /// What [`matches_exactly`](Self::matches_exactly) gives for `d`.
    pub open spec fn spec_matches_exactly(&self, d: Seq<u8>) -> Option<T> {
        if d.len() == 0 {
            None
        } else {
            match self {
                Matcher::Empty => None,
                Matcher::One(o) => if d == o.pattern() { Some(o.spec_content_type()) } else { None },
                Matcher::FastMagic(f) => fast_exact(f.spec_patterns(), d),
                Matcher::Trie(t) => last_equal(t.spec_patterns(), d),
            }
        }
    }

    /// The content type of the pattern that begins `content`; `None` for
    /// empty content.
    pub fn starts_with(&self, content: &[u8]) -> (r: Option<T>)
        ensures
            r == self.spec_starts_with(content@),
    {
        if content.len() == 0 {
            return None;
        }
        match self {
            Matcher::Empty => None,
            Matcher::One(one) => one.starts_with(content),
            Matcher::FastMagic(fast_magic) => fast_magic.starts_with(content),
            Matcher::Trie(trie) => trie.starts_with(content),
        }
    }

    /// The content type of the pattern equal to `content`; `None` for empty
    /// content.
    pub fn matches_exactly(&self, content: &[u8]) -> (r: Option<T>)
        ensures
            r == self.spec_matches_exactly(content@),
    {
        if content.len() == 0 {
            return None;
        }
        match self {
            Matcher::Empty => None,
            Matcher::One(one) => one.matches_exactly(content),
            Matcher::FastMagic(fast_magic) => fast_magic.matches_exactly(content),
            Matcher::Trie(trie) => trie.matches_exactly(content),
        }
    }
}

/// The patterns take the fast-magic path: 2 to 15 of them, each 2 to 4
/// bytes long.
pub open spec fn uses_fast_magic<T>(ps: Seq<(T, Seq<u8>)>) -> bool {
    1 < ps.len() < 16 && fast_magic_accepts(ps)
}

/// What a matcher built from `ps` gives for exactly `d`: with one pattern,
/// that pattern; with few short patterns, the first equal one; otherwise
/// the last equal one.
pub open spec fn builder_exact<T>(ps: Seq<(T, Seq<u8>)>, d: Seq<u8>) -> Option<T> {
    if d.len() == 0 || ps.len() == 0 {
        None
    } else if ps.len() == 1 {
        if d == ps[0].1 { Some(ps[0].0) } else { None }
    } else if uses_fast_magic(ps) {
        first_equal(ps, d)
    } else {
        last_equal(ps, d)
    }
}

/// What a matcher built from `ps` gives for a prefix of `d`: with one
/// pattern, that pattern if it begins `d`; with few short patterns, the
/// longest 4-, 3- or 2-byte pattern that begins `d`; otherwise the longest
/// pattern that begins `d` (the last such when several are equal).
pub open spec fn builder_prefix<T>(ps: Seq<(T, Seq<u8>)>, d: Seq<u8>) -> Option<T> {
    if d.len() == 0 || ps.len() == 0 {
        None
    } else if ps.len() == 1 {
        if is_prefix_of(ps[0].1, d) { Some(ps[0].0) } else { None }
    } else if uses_fast_magic(ps) {
        fast_prefix(ps, d)
    } else {
        longest_prefix_last(ps, d)
    }
}

/// The patterns can be compiled: at most one of them, or few short ones for
/// the fast-magic path, or a trie of at most 65536 nodes over the patterns
/// sorted by length.
pub open spec fn matcher_fits<T: ContentType>(ps: Seq<(T, Seq<u8>)>) -> bool {
    ||| ps.len() <= 1
    ||| uses_fast_magic(stable_sort(ps, len_key::<T>()))
    ||| trie_nodes(stable_sort(ps, len_key::<T>())) <= 65536
}

/// Collects `(content type, pattern)` pairs and compiles them into a
/// [`Matcher`].
pub struct MatcherBuilder<T: ContentType> {
    data: Vec<(T, &'static [u8])>,
}

/// Two pattern lists with the same patterns of each length give the same
/// answers.
proof fn lemma_same_groups<T>(a: Seq<(T, Seq<u8>)>, b: Seq<(T, Seq<u8>)>, d: Seq<u8>)
    requires
        forall|n: int| #[trigger] with_len(a, n) == with_len(b, n),
    ensures
        first_equal(a, d) == first_equal(b, d),
        last_equal(a, d) == last_equal(b, d),
        fast_exact(a, d) == fast_exact(b, d),
        fast_prefix(a, d) == fast_prefix(b, d),
        longest_prefix_last(a, d) == longest_prefix_last(b, d),
    decreases d.len(),
{
    lemma_first_equal_with_len(a, d);
    lemma_first_equal_with_len(b, d);
    lemma_last_equal_with_len(a, d);
    lemma_last_equal_with_len(b, d);
    assert(with_len(a, d.len() as int) == with_len(b, d.len() as int));
    if d.len() >= 2 {
        lemma_first_equal_with_len(a, d.take(2));
        lemma_first_equal_with_len(b, d.take(2));
        assert(with_len(a, 2) == with_len(b, 2));
    }
    if d.len() >= 3 {
        lemma_first_equal_with_len(a, d.take(3));
        lemma_first_equal_with_len(b, d.take(3));
        assert(with_len(a, 3) == with_len(b, 3));
    }
    if d.len() >= 4 {
        lemma_first_equal_with_len(a, d.take(4));
        lemma_first_equal_with_len(b, d.take(4));
        assert(with_len(a, 4) == with_len(b, 4));
    }
    if d.len() > 0 {
        lemma_same_groups(a, b, d.drop_last());
    }
}

/// With fewer than 16 patterns, all 2 to 4 bytes long, the fast-magic
/// answers are those of the plain first-match rules.
proof fn lemma_fast_small<T>(ps: Seq<(T, Seq<u8>)>, d: Seq<u8>)
    requires
        ps.len() < 16,
        fast_magic_accepts(ps),
    ensures
        fast_exact(ps, d) == first_equal(ps, d),
{
    lemma_first_equal_with_len(ps, d);
    lemma_select_len(ps, len_key::<T>(), d.len() as int);
    if !(2 <= d.len() <= 4) {
        assert forall|i: int| 0 <= i < ps.len() implies len_key::<T>()(#[trigger] ps[i]) != d.len() by {}
        assert(with_len(ps, d.len() as int).len() == 0);
        assert(with_len(ps, d.len() as int) =~= Seq::<(T, Seq<u8>)>::empty());
    } else if with_len(ps, d.len() as int).len() == 0 {
        assert(with_len(ps, d.len() as int) =~= Seq::<(T, Seq<u8>)>::empty());
    }
}

proof fn lemma_sorted_groups<T>(pv: Seq<(T, Seq<u8>)>)
    ensures
        forall|n: int| #[trigger] with_len(stable_sort(pv, len_key::<T>()), n) == with_len(pv, n),
        stable_sort(pv, len_key::<T>()).len() == pv.len(),
{
    lemma_stable_sort(pv, len_key::<T>());
}

proof fn lemma_accepts_groups<T>(a: Seq<(T, Seq<u8>)>, b: Seq<(T, Seq<u8>)>)
    requires
        forall|n: int| #[trigger] with_len(a, n) == with_len(b, n),
        a.len() == b.len(),
    ensures
        fast_magic_accepts(a) == fast_magic_accepts(b),
{
    if a.len() > 0 {
        if exists|i: int| 0 <= i < a.len() && !(2 <= (#[trigger] a[i]).1.len() <= 4) {
            let i = choose|i: int| 0 <= i < a.len() && !(2 <= (#[trigger] a[i]).1.len() <= 4);
            let n = a[i].1.len() as int;
            lemma_select_len(a, len_key::<T>(), n);
            lemma_select_len(b, len_key::<T>(), n);
            assert(with_len(a, n) == with_len(b, n));
        }
        if exists|i: int| 0 <= i < b.len() && !(2 <= (#[trigger] b[i]).1.len() <= 4) {
            let i = choose|i: int| 0 <= i < b.len() && !(2 <= (#[trigger] b[i]).1.len() <= 4);
            let n = b[i].1.len() as int;
            lemma_select_len(a, len_key::<T>(), n);
            lemma_select_len(b, len_key::<T>(), n);
            assert(with_len(a, n) == with_len(b, n));
        }
    }
}

proof fn lemma_fast_branch<T>(pv: Seq<(T, Seq<u8>)>, sorted: Seq<(T, Seq<u8>)>)
    requires
        sorted == stable_sort(pv, len_key::<T>()),
        forall|n: int| #[trigger] with_len(sorted, n) == with_len(pv, n),
        sorted.len() == pv.len(),
        1 < sorted.len() < 16,
        fast_magic_accepts(sorted),
    ensures
        forall|d: Seq<u8>| #[trigger] builder_exact(pv, d) == (if d.len() == 0 { None } else { fast_exact(sorted, d) }),
        forall|d: Seq<u8>| #[trigger] builder_prefix(pv, d) == (if d.len() == 0 { None } else { fast_prefix(sorted, d) }),
{
    lemma_accepts_groups(pv, sorted);
    assert forall|d: Seq<u8>| #[trigger] builder_exact(pv, d) == (if d.len() == 0 { None } else { fast_exact(sorted, d) }) by {
        lemma_fast_small(sorted, d);
        lemma_same_groups(sorted, pv, d);
    }
    assert forall|d: Seq<u8>| #[trigger] builder_prefix(pv, d) == (if d.len() == 0 { None } else { fast_prefix(sorted, d) }) by {
        lemma_same_groups(sorted, pv, d);
    }
}

proof fn lemma_trie_branch<T>(pv: Seq<(T, Seq<u8>)>, sorted: Seq<(T, Seq<u8>)>)
    requires
        forall|n: int| #[trigger] with_len(sorted, n) == with_len(pv, n),
        sorted.len() == pv.len(),
        sorted.len() > 1,
        !(sorted.len() < 16 && fast_magic_accepts(sorted)),
    ensures
        forall|d: Seq<u8>| #[trigger] builder_exact(pv, d) == (if d.len() == 0 { None } else { last_equal(sorted, d) }),
        forall|d: Seq<u8>| #[trigger] builder_prefix(pv, d) == (if d.len() == 0 { None } else { longest_prefix_last(sorted, d) }),
{
    lemma_accepts_groups(pv, sorted);
    assert forall|d: Seq<u8>| #[trigger] builder_exact(pv, d) == (if d.len() == 0 { None } else { last_equal(sorted, d) }) by {
        lemma_same_groups(sorted, pv, d);
    }
    assert forall|d: Seq<u8>| #[trigger] builder_prefix(pv, d) == (if d.len() == 0 { None } else { longest_prefix_last(sorted, d) }) by {
        lemma_same_groups(sorted, pv, d);
    }
}

impl<T: ContentType> MatcherBuilder<T> {
    /// The patterns added so far, in order.
    pub closed spec fn view(&self) -> Seq<(T, Seq<u8>)> {
        pattern_view(self.data@)
    }

    pub fn new() -> (r: Self)
        ensures
            r@ == Seq::<(T, Seq<u8>)>::empty(),
    {
        let r = Self { data: Vec::new() };
        assert(r@ =~= Seq::<(T, Seq<u8>)>::empty());
        r
    }

    pub fn add(&mut self, content_type: T, data: &'static [u8])
        ensures
            final(self)@ == old(self)@.push((content_type, data@)),
    {
        self.data.push((content_type, data));
        assert(final(self)@ =~= old(self)@.push((content_type, data@)));
    }

    /// Compiles the patterns: none gives [`Matcher::Empty`], one gives a
    /// single-pattern matcher, 2 to 15 patterns of 2 to 4 bytes give packed
    /// magic lists, and anything else a trie.
    pub fn build(self) -> (r: Matcher<T>)
        requires
            matcher_fits(self@),
        ensures
            forall|d: Seq<u8>| #[trigger] r.spec_matches_exactly(d) == builder_exact(self@, d),
            forall|d: Seq<u8>| #[trigger] r.spec_starts_with(d) == builder_prefix(self@, d),
            (r is Empty) == (self@.len() == 0),
    {
        match self.try_build() {
            Some(m) => m,
            None => Matcher::Empty,
        }
    }

    /// As [`build`](Self::build); `None` when the patterns need a trie of
    /// more than 65536 nodes.
    pub fn try_build(self) -> (r: Option<Matcher<T>>)
        ensures
            r is Some <==> matcher_fits(self@),
            r matches Some(m) ==> {
                &&& forall|d: Seq<u8>| #[trigger] m.spec_matches_exactly(d) == builder_exact(self@, d)
                &&& forall|d: Seq<u8>| #[trigger] m.spec_starts_with(d) == builder_prefix(self@, d)
                &&& (m is Empty) == (self@.len() == 0)
            },
    {
        let ghost pv = self@;
        let data = self.sort_by_len();
        let ghost sorted = pattern_view(data@);
        proof {
            lemma_sorted_groups(pv);
        }
        if data.len() == 0 {
            return Some(Matcher::Empty);
        }
        if data.len() == 1 {
            proof {
                reveal_with_fuel(stable_sort, 2);
                assert(pv.drop_last() == Seq::<(T, Seq<u8>)>::empty());
                assert(sorted == pv);
            }
            return Some(Matcher::One(OneMatcher::new(data[0].0, data[0].1)));
        }
        if data.len() < 16 {
            let mut all_short = true;
            let mut i: usize = 0;
            while i < data.len()
                invariant
                    sorted == pattern_view(data@),
                    i <= data@.len(),
                    all_short == forall|j: int| 0 <= j < i ==> 2 <= (#[trigger] sorted[j]).1.len() <= 4,
                decreases data@.len() - i,
            {
                let n = data[i].1.len();
                assert(sorted[i as int].1.len() == n);
                if !(n <= 4 && n >= 2) {
                    all_short = false;
                }
                i = i + 1;
            }
            if all_short {
                match FastMagicMatcher::new(data.as_slice()) {
                    Some(m) => {
                        proof {
                            lemma_fast_branch(pv, sorted);
                        }
                        return Some(Matcher::FastMagic(m));
                    },
                    None => {},
                }
            }
        }
        proof {
            lemma_trie_branch(pv, sorted);
        }
        match TrieTable::try_new(data.as_slice()) {
            Some(t) => Some(Matcher::Trie(t)),
            None => None,
        }
    }

    /// No pattern is longer than `n` bytes.
    pub fn all_at_most(&self, n: usize) -> (r: bool)
        ensures
            r == forall|i: int| 0 <= i < self@.len() ==> (#[trigger] self@[i]).1.len() <= n,
    {
        let mut i: usize = 0;
        while i < self.data.len()
            invariant
                i <= self@.len(),
                self@.len() == self.data@.len(),
                forall|j: int| 0 <= j < i ==> (#[trigger] self@[j]).1.len() <= n,
            decreases self.data@.len() - i,
        {
            assert(self@[i as int].1 == self.data@[i as int].1@);
            if self.data[i].1.len() > n {
                return false;
            }
            i = i + 1;
        }
        true
    }

    /// The patterns, stably sorted by length.
    fn sort_by_len(self) -> (r: Vec<(T, &'static [u8])>)
        ensures
            pattern_view(r@) == stable_sort(self@, len_key::<T>()),
            sorted_by(pattern_view(r@), len_key::<T>()),
            r@.len() == self@.len(),
    {
        let ghost pv = self@;
        let mut items: Vec<(u64, (T, &'static [u8]))> = Vec::new();
        let mut i: usize = 0;
        while i < self.data.len()
            invariant
                pv == self@,
                i <= self.data@.len(),
                items@.len() == i,
                forall|j: int| 0 <= j < i ==> (#[trigger] items@[j]).0 as int == self.data@[j].1@.len() && items@[j].1 == self.data@[j],
            decreases self.data@.len() - i,
        {
            let (ct, data) = self.data[i];
            items.push((data.len() as u64, (ct, data)));
            i = i + 1;
        }
        let ghost f = |x: (u64, (T, &'static [u8]))| (x.1.0, x.1.1@);
        proof {
            assert forall|i: int| 0 <= i < items@.len() implies len_key::<T>()(f(#[trigger] items@[i]))
                == first_key::<(T, &'static [u8])>()(items@[i]) by {}
            assert(items@.map_values(f) =~= pv);
            lemma_stable_sort_map(items@, f, first_key::<(T, &'static [u8])>(), len_key::<T>());
        }
        let sorted_items = sort_by_first(items);
        let mut out: Vec<(T, &'static [u8])> = Vec::new();
        let mut k: usize = 0;
        while k < sorted_items.len()
            invariant
                k <= sorted_items@.len(),
                out@.len() == k,
                forall|j: int| 0 <= j < k ==> (#[trigger] out@[j]) == sorted_items@[j].1,
            decreases sorted_items@.len() - k,
        {
            let x = sorted_items[k].1;
            out.push(x);
            k = k + 1;
        }
        proof {
            assert(pattern_view(out@) =~= sorted_items@.map_values(f));
            lemma_stable_sort(pv, len_key::<T>());
        }
        out
    }
}

} // verus!
