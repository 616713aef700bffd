use vstd::prelude::*;
use crate::content::ContentType;
use crate::matcher::packed_linear_list::{first_key, fits_packed, pattern_view, PackedKey, PackedLinearList};
use crate::matcher::patterns::{first_equal, len_key, lemma_first_equal_with_len, lemma_first_key_packed, lemma_run_is_group, with_len};
use crate::sorting::sorted_by;

verus! {

/// There are between 1 and 16 patterns of length `n`.
pub open spec fn group_fits<T>(ps: Seq<(T, Seq<u8>)>, n: int) -> bool {
    1 <= with_len(ps, n).len() <= 16
}

/// What a fast-magic matcher over `ps` gives for exactly `d`: the first
/// pattern equal to `d`, when `d` is 2 to 4 bytes long and at most 16
/// patterns share its length.
pub open spec fn fast_exact<T>(ps: Seq<(T, Seq<u8>)>, d: Seq<u8>) -> Option<T> {
    if 2 <= d.len() <= 4 && group_fits(ps, d.len() as int) {
        first_equal(ps, d)
    } else {
        None
    }
}

/// What a fast-magic matcher gives for the first `n` bytes of `d`.
pub open spec fn fast_try<T>(ps: Seq<(T, Seq<u8>)>, d: Seq<u8>, n: int) -> Option<T> {
    if d.len() >= n { fast_exact(ps, d.take(n)) } else { None }
}

/// What a fast-magic matcher over `ps` gives for a prefix of `d`: the
/// 4-byte pattern that begins `d`, else the 3-byte one, else the 2-byte one.
pub open spec fn fast_prefix<T>(ps: Seq<(T, Seq<u8>)>, d: Seq<u8>) -> Option<T> {
    if fast_try(ps, d, 4) is Some {
        fast_try(ps, d, 4)
    } else if fast_try(ps, d, 3) is Some {
        fast_try(ps, d, 3)
    } else {
        fast_try(ps, d, 2)
    }
}

/// A fast-magic matcher can be made of `ps`: it is not empty and every
/// pattern is 2 to 4 bytes long.
pub open spec fn fast_magic_accepts<T>(ps: Seq<(T, Seq<u8>)>) -> bool {
    &&& ps.len() > 0
    &&& forall|i: int| 0 <= i < ps.len() ==> 2 <= (#[trigger] ps[i]).1.len() <= 4
}

/// Matches 2-, 3- and 4-byte magics, each length kept in its own packed
/// list.
pub struct FastMagicMatcher<T: ContentType> {
    two: Option<PackedLinearList<T, u32>>,
    three: Option<PackedLinearList<T, u32>>,
    four: Option<PackedLinearList<T, u32>>,
    patterns: Ghost<Seq<(T, Seq<u8>)>>,
}

/// The packed list for the patterns of length `n`, if there are 1 to 16.
spec fn list_for<T: ContentType>(l: Option<PackedLinearList<T, u32>>, ps: Seq<(T, Seq<u8>)>, n: int) -> bool {
    match l {
        Some(l) => group_fits(ps, n) && l.entries() == with_len(ps, n).map_values(
            |p: (T, Seq<u8>)| (<u32 as PackedKey>::spec_pack(p.1), p.0),
        ),
        None => !group_fits(ps, n),
    }
}

impl<T: ContentType> FastMagicMatcher<T> {
    #[verifier::type_invariant]
    spec fn inv(self) -> bool {
        &&& list_for(self.two, self.patterns@, 2)
        &&& list_for(self.three, self.patterns@, 3)
        &&& list_for(self.four, self.patterns@, 4)
    }

    /// The patterns this matcher was made of.
    pub closed spec fn spec_patterns(&self) -> Seq<(T, Seq<u8>)> {
        self.patterns@
    }

    /// Builds the packed list of the patterns of length `n`.
    fn group(patterns: &[(T, &'static [u8])], n: usize) -> (r: Option<PackedLinearList<T, u32>>)
        requires
            2 <= n <= 4,
            sorted_by(pattern_view(patterns@), len_key::<T>()),
        ensures
            list_for(r, pattern_view(patterns@), n as int),
    {
        let ghost pv = pattern_view(patterns@);
        let mut start: usize = 0;
        while start < patterns.len() && patterns[start].1.len() < n
            invariant
                pv == pattern_view(patterns@),
                start <= patterns@.len(),
                forall|i: int| 0 <= i < start ==> (#[trigger] pv[i]).1.len() < n,
            decreases patterns@.len() - start,
        {
            start = start + 1;
        }
        let mut end: usize = start;
        while end < patterns.len() && patterns[end].1.len() == n
            invariant
                pv == pattern_view(patterns@),
                start <= end <= patterns@.len(),
                forall|i: int| start <= i < end ==> (#[trigger] pv[i]).1.len() == n,
            decreases patterns@.len() - end,
        {
            end = end + 1;
        }
        proof {
            assert forall|i: int| end <= i < pv.len() implies (#[trigger] pv[i]).1.len() > n by {
                if start < pv.len() {
                    assert(len_key::<T>()(pv[start as int]) <= len_key::<T>()(pv[i]));
                }
                if end < pv.len() {
                    assert(len_key::<T>()(pv[end as int]) <= len_key::<T>()(pv[i]));
                }
            }
            lemma_run_is_group(pv, n as int, start as int, end as int);
        }
        if start == end {
            return None;
        }
        let slice = &patterns[start..end];
        let r = PackedLinearList::<T, u32>::new(slice);
        let width = <u32 as PackedKey>::width();
        proof {
            assert(<u32 as PackedKey>::WIDTH == 4usize);
            assert(pattern_view(slice@) =~= pv.subrange(start as int, end as int));
            assert(pv[start as int].1.len() == n);
        }
        r
    }

    /// Builds a matcher over `patterns`, which must be sorted by length.
    /// `None` when there are no patterns, or one is shorter than 2 or
    /// longer than 4 bytes.
    pub fn new(patterns: &[(T, &'static [u8])]) -> (r: Option<Self>)
        requires
            sorted_by(pattern_view(patterns@), len_key::<T>()),
        ensures
            r is Some <==> fast_magic_accepts(pattern_view(patterns@)),
            r matches Some(m) ==> m.spec_patterns() == pattern_view(patterns@),
    {
        let ghost pv = pattern_view(patterns@);
        if patterns.len() == 0 {
            return None;
        }
        let min_len = patterns[0].1.len();
        let max_len = patterns[patterns.len() - 1].1.len();
        assert(pv[0].1.len() == min_len);
        assert(pv[pv.len() - 1].1.len() == max_len);
        if min_len < 2 || max_len > 4 {
            return None;
        }
        proof {
            assert forall|i: int| 0 <= i < pv.len() implies 2 <= (#[trigger] pv[i]).1.len() <= 4 by {
                assert(len_key::<T>()(pv[0]) <= len_key::<T>()(pv[i]));
                assert(len_key::<T>()(pv[i]) <= len_key::<T>()(pv[pv.len() - 1]));
            }
        }
        let two = Self::group(patterns, 2);
        let three = Self::group(patterns, 3);
        let four = Self::group(patterns, 4);
        Some(Self { two, three, four, patterns: Ghost(pv) })
    }

    /// Searches `list`, the packed list of `key`'s length, for `key`.
    fn find_in(list: &Option<PackedLinearList<T, u32>>, key: &[u8], ps: Ghost<Seq<(T, Seq<u8>)>>) -> (r: Option<T>)
        requires
            2 <= key@.len() <= 4,
            list_for(*list, ps@, key@.len() as int),
        ensures
            r == fast_exact(ps@, key@),
    {
        match list {
            Some(l) => {
                let k = <u32 as PackedKey>::pack(key);
                let width = <u32 as PackedKey>::width();
                let r = l.find(k);
                proof {
                    assert(<u32 as PackedKey>::WIDTH == 4usize);
                    let g = with_len(ps@, key@.len() as int);
                    crate::sorting::lemma_select_keys(ps@, len_key::<T>(), key@.len() as int);
                    lemma_first_key_packed::<T, u32>(g, key@);
                    lemma_first_equal_with_len(ps@, key@);
                }
                r
            },
            None => None,
        }
    }

    fn test_four(&self, data: &[u8]) -> (r: Option<T>)
        requires
            data@.len() >= 4,
        ensures
            r == fast_try(self.spec_patterns(), data@, 4),
    {
        proof { use_type_invariant(self); }
        let key = &data[0..4];
        Self::find_in(&self.four, key, self.patterns)
    }

    fn test_three(&self, data: &[u8]) -> (r: Option<T>)
        requires
            data@.len() >= 3,
        ensures
            r == fast_try(self.spec_patterns(), data@, 3),
    {
        proof { use_type_invariant(self); }
        let key = &data[0..3];
        Self::find_in(&self.three, key, self.patterns)
    }

    fn test_two(&self, data: &[u8]) -> (r: Option<T>)
        requires
            data@.len() >= 2,
        ensures
            r == fast_try(self.spec_patterns(), data@, 2),
    {
        proof { use_type_invariant(self); }
        let key = &data[0..2];
        Self::find_in(&self.two, key, self.patterns)
    }

    /// The content type of the longest magic that begins `data` (the first
    /// such magic when several of that length are equal).
    pub fn starts_with(&self, data: &[u8]) -> (r: Option<T>)
        ensures
            r == fast_prefix(self.spec_patterns(), data@),
    {
        if data.len() >= 4 {
            let result = self.test_four(data);
            if result.is_some() {
                return result;
            }
            let result = self.test_three(data);
            if result.is_some() {
                return result;
            }
            let result = self.test_two(data);
            if result.is_some() {
                return result;
            }
        } else if data.len() >= 3 {
            let result = self.test_three(data);
            if result.is_some() {
                return result;
            }
            let result = self.test_two(data);
            if result.is_some() {
                return result;
            }
        } else if data.len() >= 2 {
            let result = self.test_two(data);
            if result.is_some() {
                return result;
            }
        }
        None
    }

    /// The content type of the first magic equal to `data`.
    pub fn matches_exactly(&self, data: &[u8]) -> (r: Option<T>)
        ensures
            r == fast_exact(self.spec_patterns(), data@),
    {
        proof { use_type_invariant(self); }
        match data.len() {
            2 => Self::find_in(&self.two, data, self.patterns),
            3 => Self::find_in(&self.three, data, self.patterns),
            4 => Self::find_in(&self.four, data, self.patterns),
            _ => None,
        }
    }
}

} // verus!
