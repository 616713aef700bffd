use vstd::prelude::*;
use crate::content::ContentType;
use crate::sorting::{first_key, lemma_stable_sort, lemma_stable_sort_map, sort_by_first, sorted_by, stable_sort};

verus! {

/// A range of plugin positions; empty when `end` is zero.
#[derive(Clone, Copy, PartialEq, Eq, Structural)]
pub struct VecRange {
    start: u16,
    end: u16,
}

impl VecRange {
    fn new(start: u16, end: u16) -> (r: Self)
        ensures
            r.start == start,
            r.end == end,
    {
        Self { start, end }
    }

    fn is_empty(&self) -> (r: bool)
        ensures
            r == (self.end == 0),
    {
        self.end == 0
    }
}

/// The type id packed in the high half of a plugin hash.
pub open spec fn hash_type(h: u32) -> int {
    h as int / 65536
}

/// The id plugins registered for every type carry.
pub open spec fn generic_type() -> int {
    65535
}

/// Orders plugins by hash: by type id, then by priority.
pub open spec fn hash_key<T>() -> spec_fn((u32, T)) -> int {
    |p: (u32, T)| p.0 as int
}

/// Number of plugins whose hash is below `x`.
pub open spec fn count_below<T>(s: Seq<(u32, T)>, x: int) -> int
    decreases s.len(),
{
    if s.len() == 0 {
        0
    } else {
        count_below(s.drop_last(), x) + if (s.last().0 as int) < x { 1int } else { 0int }
    }
}

/// In a list sorted by hash, the plugins with hash below `x` are the first
/// `count_below` ones.
proof fn lemma_count_below<T>(s: Seq<(u32, T)>, x: int)
    requires
        sorted_by(s, hash_key::<T>()),
    ensures
        0 <= count_below(s, x) <= s.len(),
        forall|i: int| 0 <= i < s.len() ==> ((#[trigger] s[i]).0 < x <==> i < count_below(s, x)),
    decreases s.len(),
{
    if s.len() > 0 {
        let init = s.drop_last();
        assert(sorted_by(init, hash_key::<T>())) by {
            assert forall|i: int, j: int| 0 <= i <= j < init.len() implies hash_key::<T>()(init[i]) <= hash_key::<T>()(init[j]) by {
                assert(init[i] == s[i] && init[j] == s[j]);
            }
        }
        lemma_count_below(init, x);
        assert forall|i: int| 0 <= i < s.len() implies ((#[trigger] s[i]).0 < x <==> i < count_below(s, x)) by {
            if i < s.len() - 1 {
                assert(s[i] == init[i]);
                assert(hash_key::<T>()(s[i]) <= hash_key::<T>()(s[s.len() - 1]));
            }
            if (s.last().0 as int) < x {
                assert forall|j: int| 0 <= j < init.len() implies (#[trigger] init[j]).0 < x by {
                    assert(init[j] == s[j]);
                    assert(hash_key::<T>()(s[j]) <= hash_key::<T>()(s[s.len() - 1]));
                }
            }
        }
    }
}

/// Where the plugins of type `id` lie in the sorted list `s`.
pub open spec fn type_range<T>(s: Seq<(u32, T)>, id: int) -> (int, int) {
    (count_below(s, id * 65536), count_below(s, (id + 1) * 65536))
}

spec fn empty_range() -> VecRange {
    VecRange { start: 0, end: 0 }
}

/// The table entry for type `t`: the range of its plugins, or the empty
/// range when it has none.
spec fn expected_range<T>(s: Seq<(u32, T)>, t: int) -> VecRange {
    let (a, b) = type_range(s, t);
    if a < b { VecRange { start: a as u16, end: b as u16 } } else { empty_range() }
}

/// The range of the generic plugins, which sort last; `None` when there
/// are none.
pub open spec fn expected_generic<T>(s: Seq<(u32, T)>) -> Option<(usize, usize)> {
    if s.len() > 0 && hash_type(s.last().0) == generic_type() {
        Some((count_below(s, generic_type() * 65536) as usize, s.len() as usize))
    } else {
        None
    }
}

proof fn lemma_hash_type(h: u32)
    ensures
        ((h >> 16u32) as u16) as int == hash_type(h),
        hash_type(h) * 65536 <= h < (hash_type(h) + 1) * 65536,
        0 <= hash_type(h) <= 65535,
{
    assert(((h >> 16u32) as u16) as u32 == h / 65536) by (bit_vector);
}

proof fn lemma_run_end<T>(sp: Seq<(u32, T)>, t: int, pos: int)
    requires
        sorted_by(sp, hash_key::<T>()),
        0 < pos <= sp.len(),
        hash_type(sp[pos - 1].0) == t,
        pos < sp.len() ==> hash_type(sp[pos].0) > t,
    ensures
        count_below(sp, (t + 1) * 65536) == pos,
{
    lemma_count_below(sp, (t + 1) * 65536);
    lemma_hash_type(sp[pos - 1].0);
    if pos < sp.len() {
        lemma_hash_type(sp[pos].0);
        assert((hash_type(sp[pos].0)) * 65536 >= (t + 1) * 65536) by (nonlinear_arith)
            requires hash_type(sp[pos].0) >= t + 1;
    }
}

proof fn lemma_gap_empty<T>(sp: Seq<(u32, T)>, last: int, ty: int, pos: int)
    requires
        sorted_by(sp, hash_key::<T>()),
        0 < pos < sp.len(),
        hash_type(sp[pos - 1].0) == last,
        hash_type(sp[pos].0) == ty,
        last < ty,
    ensures
        forall|k: int| last < k < ty ==> #[trigger] expected_range(sp, k) == empty_range(),
        count_below(sp, ty * 65536) == pos,
{
    lemma_hash_type(sp[pos - 1].0);
    lemma_hash_type(sp[pos].0);
    assert forall|k: int| last < k < ty implies #[trigger] expected_range(sp, k) == empty_range() by {
        lemma_count_below(sp, k * 65536);
        lemma_count_below(sp, (k + 1) * 65536);
        assert((last + 1) * 65536 <= k * 65536) by (nonlinear_arith) requires last + 1 <= k;
        assert((k + 1) * 65536 <= ty * 65536) by (nonlinear_arith) requires k + 1 <= ty;
    }
    lemma_count_below(sp, ty * 65536);
    assert((last + 1) * 65536 <= ty * 65536) by (nonlinear_arith) requires last + 1 <= ty;
}

proof fn lemma_tail_empty<T>(sp: Seq<(u32, T)>, last: int)
    requires
        sorted_by(sp, hash_key::<T>()),
        sp.len() > 0 ==> hash_type(sp.last().0) == last,
        sp.len() == 0 ==> last == 0,
    ensures
        forall|k: int| (sp.len() > 0 ==> k > last) ==> #[trigger] expected_range(sp, k) == empty_range(),
{
    assert forall|k: int| (sp.len() > 0 ==> k > last) implies #[trigger] expected_range(sp, k) == empty_range() by {
        lemma_count_below(sp, k * 65536);
        lemma_count_below(sp, (k + 1) * 65536);
        if sp.len() > 0 {
            lemma_hash_type(sp.last().0);
            assert((last + 1) * 65536 <= k * 65536) by (nonlinear_arith) requires last + 1 <= k;
            assert forall|i: int| 0 <= i < sp.len() implies (#[trigger] sp[i]).0 < k * 65536 by {
                assert(hash_key::<T>()(sp[i]) <= hash_key::<T>()(sp[sp.len() - 1]));
            }
            if count_below(sp, k * 65536) < sp.len() {
                assert(sp[count_below(sp, k * 65536)].0 < k * 65536);
            }
            assert(k * 65536 <= (k + 1) * 65536);
            if count_below(sp, (k + 1) * 65536) < sp.len() {
                assert(sp[count_below(sp, (k + 1) * 65536)].0 < k * 65536);
            }
        }
    }
}

proof fn lemma_head_empty<T>(sp: Seq<(u32, T)>, ty: int)
    requires
        sorted_by(sp, hash_key::<T>()),
        sp.len() > 0,
        hash_type(sp[0].0) == ty,
    ensures
        forall|k: int| k < ty ==> #[trigger] expected_range(sp, k) == empty_range(),
{
    lemma_hash_type(sp[0].0);
    assert forall|k: int| k < ty implies #[trigger] expected_range(sp, k) == empty_range() by {
        lemma_count_below(sp, k * 65536);
        lemma_count_below(sp, (k + 1) * 65536);
        assert((k + 1) * 65536 <= ty * 65536) by (nonlinear_arith) requires k + 1 <= ty;
        if count_below(sp, (k + 1) * 65536) > 0 {
            assert(sp[0].0 < (k + 1) * 65536);
        }
    }
}

/// Two lists that differ only in their payloads index alike.
proof fn lemma_same_keys<T>(s1: Seq<(u32, T)>, s2: Seq<(u32, T)>)
    requires
        s1.len() == s2.len(),
        forall|i: int| 0 <= i < s1.len() ==> (#[trigger] s1[i]).0 == s2[i].0,
    ensures
        forall|x: int| #[trigger] count_below(s1, x) == count_below(s2, x),
        sorted_by(s1, hash_key::<T>()) ==> sorted_by(s2, hash_key::<T>()),
        expected_generic(s1) == expected_generic(s2),
        forall|t: int| #[trigger] expected_range(s1, t) == expected_range(s2, t),
    decreases s1.len(),
{
    if s1.len() > 0 {
        lemma_same_keys(s1.drop_last(), s2.drop_last());
    }
    assert forall|x: int| #[trigger] count_below(s1, x) == count_below(s2, x) by {
        if s1.len() > 0 {
            assert(count_below(s1.drop_last(), x) == count_below(s2.drop_last(), x));
            assert(s1.last().0 == s2.last().0);
        }
    }
    if sorted_by(s1, hash_key::<T>()) {
        assert forall|i: int, j: int| 0 <= i <= j < s2.len() implies hash_key::<T>()(s2[i]) <= hash_key::<T>()(s2[j]) by {
            assert(s1[i].0 == s2[i].0 && s1[j].0 == s2[j].0);
            assert(hash_key::<T>()(s1[i]) <= hash_key::<T>()(s1[j]));
        }
    }
    if s1.len() > 0 {
        assert(s1.last().0 == s2.last().0);
    }
    assert(count_below(s1, generic_type() * 65536) == count_below(s2, generic_type() * 65536));
    assert forall|t: int| #[trigger] expected_range(s1, t) == expected_range(s2, t) by {
        assert(count_below(s1, t * 65536) == count_below(s2, t * 65536));
        assert(count_below(s1, (t + 1) * 65536) == count_below(s2, (t + 1) * 65536));
    }
}

/// Replacing the payload of one plugin changes nothing the index depends on.
proof fn lemma_update_payload<T>(s: Seq<(u32, T)>, i: int)
    requires
        0 <= i < s.len(),
    ensures
        forall|v: T| {
            let s2 = #[trigger] s.update(i, (s[i].0, v));
            &&& forall|x: int| #[trigger] count_below(s2, x) == count_below(s, x)
            &&& sorted_by(s, hash_key::<T>()) ==> sorted_by(s2, hash_key::<T>())
            &&& expected_generic(s2) == expected_generic(s)
            &&& forall|t: int| #[trigger] expected_range(s2, t) == expected_range(s, t)
        },
{
    assert forall|v: T| {
        let s2 = #[trigger] s.update(i, (s[i].0, v));
        &&& forall|x: int| #[trigger] count_below(s2, x) == count_below(s, x)
        &&& sorted_by(s, hash_key::<T>()) ==> sorted_by(s2, hash_key::<T>())
        &&& expected_generic(s2) == expected_generic(s)
        &&& forall|t: int| #[trigger] expected_range(s2, t) == expected_range(s, t)
    } by {
        lemma_same_keys(s, s.update(i, (s[i].0, v)));
    }
}

/// Analyzers are kept in a plugin list keyed by `(type id << 16) | priority`.
pub type AnalyzerList<T> = PluginsList<T>;

/// Plugins sorted by `(type id, priority)`, with a table from each type id
/// to the range of its plugins, and the range of the generic plugins
/// (those of type id `0xFFFF`).
pub struct PluginsList<T> {
    plugins: Vec<(u32, T)>,
    fast_map: Vec<VecRange>,
    generic_range: Option<(usize, usize)>,
}

impl<T> PluginsList<T> {
    /// The plugins in the order they run: by type id, then priority, then
    /// registration.
    pub closed spec fn spec_plugins(&self) -> Seq<(u32, T)> {
        self.plugins@
    }

    /// Number of entries in the type table.
    pub closed spec fn spec_max_count(&self) -> int {
        self.fast_map@.len() as int
    }

    pub closed spec fn wf(&self) -> bool {
        &&& sorted_by(self.plugins@, hash_key::<T>())
        &&& self.plugins@.len() < 65535
        &&& forall|t: int| 0 <= t < self.fast_map@.len() ==> #[trigger] self.fast_map@[t] == expected_range(self.plugins@, t)
        &&& self.generic_range == expected_generic(self.plugins@)
    }

    /// [`new`](Self::new) after checking its conditions: `None` when there
    /// are 65535 plugins or more, or when a type id is neither below
    /// `max_count` nor the generic id.
    pub fn try_new(plugins: Vec<(u32, T)>, max_count: u16) -> (r: Option<Self>)
        ensures
            r is Some <==> (plugins@.len() < 65535 && forall|i: int| 0 <= i < plugins@.len()
                ==> #[trigger] hash_type(plugins@[i].0) < max_count || hash_type(plugins@[i].0) == generic_type()),
            r matches Some(l) ==> l.wf() && l.spec_plugins() == stable_sort(plugins@, hash_key::<T>())
                && l.spec_max_count() == max_count,
    {
        if plugins.len() >= 65535 {
            return None;
        }
        let mut i: usize = 0;
        while i < plugins.len()
            invariant
                i <= plugins@.len(),
                forall|j: int| 0 <= j < i ==> #[trigger] hash_type(plugins@[j].0) < max_count
                    || hash_type(plugins@[j].0) == generic_type(),
            decreases plugins@.len() - i,
        {
            let id = plugins[i].0 >> 16u32;
            proof {
                let h = plugins@[i as int].0;
                assert(h >> 16u32 == h / 65536) by (bit_vector);
            }
            if !(id < max_count as u32 || id == 0xFFFFu32) {
                proof {
                    let h = plugins@[i as int].0;
                    assert(hash_type(h) == id as int);
                    assert(!(hash_type(plugins@[i as int].0) < max_count || hash_type(plugins@[i as int].0) == generic_type()));
                }
                return None;
            }
            i = i + 1;
        }
        Some(Self::new(plugins, max_count))
    }

    /// Sorts `plugins` by hash (stably) and indexes them by type id. Every
    /// type id must be below `max_count` or be the generic id `0xFFFF`.
    pub fn new(plugins: Vec<(u32, T)>, max_count: u16) -> (r: Self)
        requires
            plugins@.len() < 65535,
            forall|i: int| 0 <= i < plugins@.len() ==> #[trigger] hash_type(plugins@[i].0) < max_count
                || hash_type(plugins@[i].0) == generic_type(),
        ensures
            r.wf(),
            r.spec_plugins() == stable_sort(plugins@, hash_key::<T>()),
            r.spec_max_count() == max_count,
    {
        let ghost orig = plugins@;
        let p = Self::sort_plugins(plugins);
        let ghost sp = p@;
        assert forall|i: int| 0 <= i < sp.len() implies #[trigger] hash_type(sp[i].0) < max_count
            || hash_type(sp[i].0) == generic_type() by {
            let j = choose|j: int| 0 <= j < orig.len() && orig[j] == sp[i];
            assert(hash_type(orig[j].0) < max_count || hash_type(orig[j].0) == generic_type());
        }
        let mut fast_map: Vec<VecRange> = Vec::new();
        let mut t: u16 = 0;
        while t < max_count
            invariant
                t <= max_count,
                fast_map@.len() == t,
                forall|k: int| 0 <= k < t ==> #[trigger] fast_map@[k] == empty_range(),
            decreases max_count - t,
        {
            fast_map.push(VecRange::new(0, 0));
            t = t + 1;
        }
        let mut last_type_id: u16 = 0;
        let mut start_pos: u16 = u16::MAX;
        let mut pos: usize = 0;
        while pos < p.len()
            invariant
                sp == p@,
                sorted_by(sp, hash_key::<T>()),
                sp.len() < 65535,
                fast_map@.len() == max_count,
                forall|i: int| 0 <= i < sp.len() ==> #[trigger] hash_type(sp[i].0) < max_count
                    || hash_type(sp[i].0) == generic_type(),
                pos <= sp.len(),
                pos == 0 <==> start_pos == u16::MAX,
                pos > 0 ==> start_pos < pos,
                pos > 0 ==> start_pos == count_below(sp, last_type_id * 65536),
                pos > 0 ==> hash_type(sp[pos - 1].0) == last_type_id,
                pos == 0 ==> last_type_id == 0,
                forall|k: int| 0 <= k < max_count ==> #[trigger] fast_map@[k] == (
                    if pos > 0 && k < last_type_id { expected_range(sp, k) } else { empty_range() }),
            decreases sp.len() - pos,
        {
            let type_id = (p[pos].0 >> 16) as u16;
            proof {
                lemma_hash_type(p@[pos as int].0);
                lemma_count_below(sp, type_id * 65536);
                if pos > 0 {
                    assert(hash_key::<T>()(sp[pos - 1]) <= hash_key::<T>()(sp[pos as int]));
                    lemma_hash_type(sp[pos - 1].0);
                    if type_id < last_type_id {
                        assert((type_id + 1) * 65536 <= last_type_id * 65536) by (nonlinear_arith)
                            requires type_id + 1 <= last_type_id;
                    }
                } else {
                    assert forall|i: int| 0 <= i < sp.len() implies !((#[trigger] sp[i]).0 < type_id * 65536) by {
                        assert(hash_key::<T>()(sp[0]) <= hash_key::<T>()(sp[i]));
                    }
                    lemma_head_empty(sp, type_id as int);
                }
            }
            if start_pos == u16::MAX {
                start_pos = pos as u16;
                last_type_id = type_id;
                pos = pos + 1;
                continue;
            }
            if type_id != last_type_id {
                proof {
                    lemma_run_end(sp, last_type_id as int, pos as int);
                }
                if (last_type_id as u32) < (max_count as u32) {
                    fast_map.set(last_type_id as usize, VecRange::new(start_pos, pos as u16));
                }
                proof {
                    lemma_gap_empty(sp, last_type_id as int, type_id as int, pos as int);
                }
                last_type_id = type_id;
                start_pos = pos as u16;
                pos = pos + 1;
                continue;
            }
            pos = pos + 1;
        }
        if (last_type_id < max_count) && (start_pos != u16::MAX) {
            proof { lemma_run_end(sp, last_type_id as int, pos as int); }
            fast_map.set(last_type_id as usize, VecRange::new(start_pos, p.len() as u16));
        }
        let generic_range = if last_type_id == 0xFFFF {
            Some((start_pos as usize, p.len()))
        } else {
            None
        };
        proof {
            lemma_tail_empty(sp, last_type_id as int);
            if sp.len() > 0 {
                lemma_count_below(sp, generic_type() * 65536);
            }
        }
        let r = Self { plugins: p, fast_map, generic_range };
        proof {
            assert forall|k: int| 0 <= k < r.fast_map@.len() implies #[trigger] r.fast_map@[k] == expected_range(r.plugins@, k) by {
                if sp.len() > 0 && k > last_type_id {
                    assert(expected_range(sp, k) == empty_range());
                }
                if sp.len() == 0 {
                    assert(expected_range(sp, k) == empty_range());
                }
            }
        }
        r
    }

    /// The plugins, stably sorted by hash.
    fn sort_plugins(plugins: Vec<(u32, T)>) -> (r: Vec<(u32, T)>)
        ensures
            r@ == stable_sort(plugins@, hash_key::<T>()),
            r@.len() == plugins@.len(),
            sorted_by(r@, hash_key::<T>()),
            forall|i: int| 0 <= i < r@.len() ==> exists|j: int| 0 <= j < plugins@.len() && plugins@[j] == #[trigger] r@[i],
    {
        let total: usize = plugins.len();
        let ghost orig = plugins@;
        let mut items: Vec<(u64, (u32, T))> = Vec::new();
        let mut rest = plugins;
        let mut i: usize = 0;
        while rest.len() > 0
            invariant
                i <= orig.len(),
                orig.len() <= usize::MAX,
                rest@ == orig.skip(i as int),
                items@.len() == i,
                forall|j: int| 0 <= j < i ==> (#[trigger] items@[j]).0 as int == orig[j].0 as int && items@[j].1 == orig[j],
            decreases rest@.len(),
        {
            let x = rest.remove(0);
            assert(x == orig[i as int]);
            items.push((x.0 as u64, x));
            i = i + 1;
        }
        assert(i == orig.len());
        let ghost f = |x: (u64, (u32, T))| x.1;
        proof {
            assert(items@.map_values(f) =~= orig);
            assert forall|j: int| 0 <= j < items@.len() implies hash_key::<T>()(f(#[trigger] items@[j]))
                == first_key::<(u32, T)>()(items@[j]) by {}
            lemma_stable_sort_map(items@, f, first_key::<(u32, T)>(), hash_key::<T>());
            lemma_stable_sort(orig, hash_key::<T>());
            crate::sorting::lemma_stable_sort_elems(orig, hash_key::<T>());
        }
        let sorted_items = sort_by_first(items);
        let mut out: Vec<(u32, T)> = Vec::new();
        let mut rest2 = sorted_items;
        let ghost si = rest2@;
        let mut k: usize = 0;
        while rest2.len() > 0
            invariant
                k <= si.len(),
                si.len() <= usize::MAX,
                rest2@ == si.skip(k as int),
                out@.len() == k,
                forall|j: int| 0 <= j < k ==> #[trigger] out@[j] == si[j].1,
            decreases rest2@.len(),
        {
            let x = rest2.remove(0);
            assert(x == si[k as int]);
            out.push(x.1);
            k = k + 1;
        }
        assert(out@ =~= si.map_values(f));
        out
    }

    /// The range of the plugins of type `id` in [`spec_plugins`](Self::spec_plugins);
    /// `None` when there are none or `id` is past the table.
    pub open spec fn spec_range(&self, id: int) -> Option<(usize, usize)> {
        let (a, b) = type_range(self.spec_plugins(), id);
        if 0 <= id < self.spec_max_count() && a < b { Some((a as usize, b as usize)) } else { None }
    }

    /// Two lists with the same keys and the same table size have the same
    /// ranges: replacing plugins in place moves no range.
    pub proof fn lemma_same_ranges(&self, other: &Self)
        requires
            self.spec_plugins().len() == other.spec_plugins().len(),
            forall|i: int| 0 <= i < self.spec_plugins().len() ==> (#[trigger] self.spec_plugins()[i]).0 == other.spec_plugins()[i].0,
            self.spec_max_count() == other.spec_max_count(),
        ensures
            forall|id: int| #[trigger] self.spec_range(id) == other.spec_range(id),
            expected_generic(self.spec_plugins()) == expected_generic(other.spec_plugins()),
    {
        lemma_same_keys(self.spec_plugins(), other.spec_plugins());
        assert forall|id: int| #[trigger] self.spec_range(id) == other.spec_range(id) by {
            assert(count_below(self.spec_plugins(), id * 65536) == count_below(other.spec_plugins(), id * 65536));
            assert(count_below(self.spec_plugins(), (id + 1) * 65536) == count_below(other.spec_plugins(), (id + 1) * 65536));
        }
    }

    /// The range of a type holds exactly the plugins registered for that
    /// type, and the plugins run in order of hash (type, then priority).
    pub proof fn lemma_range_exact(&self, id: int)
        requires
            self.wf(),
            0 <= id < self.spec_max_count(),
        ensures
            forall|i: int, j: int| 0 <= i <= j < self.spec_plugins().len()
                ==> (#[trigger] self.spec_plugins()[i]).0 <= (#[trigger] self.spec_plugins()[j]).0,
            self.spec_range(id) matches Some((a, b)) ==> forall|i: int| 0 <= i < self.spec_plugins().len()
                ==> (a <= i < b <==> hash_type((#[trigger] self.spec_plugins()[i]).0) == id),
            self.spec_range(id) is None ==> forall|i: int| 0 <= i < self.spec_plugins().len()
                ==> hash_type((#[trigger] self.spec_plugins()[i]).0) != id,
    {
        lemma_count_below(self.plugins@, id * 65536);
        lemma_count_below(self.plugins@, (id + 1) * 65536);
        assert forall|i: int| 0 <= i < self.plugins@.len() implies
            (hash_type((#[trigger] self.plugins@[i]).0) == id <==> (self.plugins@[i].0 >= id * 65536 && self.plugins@[i].0 < (id + 1) * 65536)) by {
            lemma_hash_type(self.plugins@[i].0);
            let h = hash_type(self.plugins@[i].0);
            if h < id {
                assert((h + 1) * 65536 <= id * 65536) by (nonlinear_arith) requires h + 1 <= id;
            }
            if h > id {
                assert((id + 1) * 65536 <= h * 65536) by (nonlinear_arith) requires id + 1 <= h;
            }
        }
        assert forall|i: int, j: int| 0 <= i <= j < self.spec_plugins().len()
            implies (#[trigger] self.spec_plugins()[i]).0 <= (#[trigger] self.spec_plugins()[j]).0 by {
            assert(hash_key::<T>()(self.plugins@[i]) <= hash_key::<T>()(self.plugins@[j]));
        }
    }

    /// The range of the plugins registered for type id `id`.
    pub fn range_of_id(&self, id: u16) -> (r: Option<(usize, usize)>)
        requires
            self.wf(),
        ensures
            r == self.spec_range(id as int),
            r matches Some((a, b)) ==> a < b <= self.spec_plugins().len()
                && forall|i: int| a <= i < b ==> hash_type((#[trigger] self.spec_plugins()[i]).0) == id,
    {
        proof {
            lemma_count_below(self.plugins@, id * 65536);
            lemma_count_below(self.plugins@, (id + 1) * 65536);
            assert forall|i: int| 0 <= i < self.plugins@.len() implies
                (hash_type((#[trigger] self.plugins@[i]).0) == id <==> (self.plugins@[i].0 >= id * 65536 && self.plugins@[i].0 < (id + 1) * 65536)) by {
                lemma_hash_type(self.plugins@[i].0);
                let h = hash_type(self.plugins@[i].0);
                if h < id {
                    assert((h + 1) * 65536 <= id * 65536) by (nonlinear_arith) requires h + 1 <= id;
                }
                if h > id {
                    assert((id + 1) * 65536 <= h * 65536) by (nonlinear_arith) requires id + 1 <= h;
                }
            }
        }
        let index = id as usize;
        if index < self.fast_map.len() {
            let range = self.fast_map[index];
            if range.is_empty() {
                None
            } else {
                Some((range.start as usize, range.end as usize))
            }
        } else {
            None
        }
    }

    /// The range of the plugins registered for `content_type`.
    pub fn range<CT: ContentType>(&self, content_type: CT) -> (r: Option<(usize, usize)>)
        requires
            self.wf(),
        ensures
            r == self.spec_range(content_type.id() as int),
            r matches Some((a, b)) ==> a < b <= self.spec_plugins().len()
                && forall|i: int| a <= i < b ==> hash_type((#[trigger] self.spec_plugins()[i]).0) == content_type.id(),
    {
        let id = content_type.as_u16();
        self.range_of_id(id)
    }

    /// The range of the generic plugins, which run for every type.
    pub fn generic_range(&self) -> (r: Option<(usize, usize)>)
        requires
            self.wf(),
        ensures
            r == expected_generic(self.spec_plugins()),
    {
        self.generic_range
    }

    /// The plugin at `index`, for mutation.
    pub fn get(&mut self, index: usize) -> (r: &mut T)
        requires
            index < old(self).spec_plugins().len(),
        ensures
            *r == old(self).spec_plugins()[index as int].1,
            final(self).spec_plugins() == old(self).spec_plugins().update(index as int, (old(self).spec_plugins()[index as int].0, *final(r))),
            final(self).spec_max_count() == old(self).spec_max_count(),
            old(self).wf() ==> final(self).wf(),
    {
        proof {
            lemma_update_payload(self.plugins@, index as int);
        }
        &mut self.plugins[index].1
    }

    /// Number of plugins.
    pub fn len(&self) -> (r: usize)
        ensures
            r == self.spec_plugins().len(),
    {
        self.plugins.len()
    }
}

} // verus!
