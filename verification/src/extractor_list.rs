use vstd::prelude::*;
use crate::content::ContentType;
use crate::plugin_list::{hash_key, hash_type, type_range, PluginsList};
use crate::sorting::{lemma_stable_sort_map, stable_sort};

verus! {

/// Orders extractors by the identifier of their content type.
pub open spec fn id_key<CT: ContentType, T>() -> spec_fn((CT, T)) -> int {
    |p: (CT, T)| p.0.id() as int
}

spec fn scaled_id_key<CT: ContentType, T>() -> spec_fn((CT, T)) -> int {
    |p: (CT, T)| p.0.id() as int * 65536
}

/// The extractor list entry for `p`: its hash is the type id in the high half.
pub open spec fn tagged<CT: ContentType, T>(p: (CT, T)) -> (u32, (CT, T)) {
    ((p.0.id() as int * 65536) as u32, p)
}

proof fn lemma_tag(id: u16)
    ensures
        ((id as int * 65536) as u32) as int == id as int * 65536,
        hash_type((id as int * 65536) as u32) == id,
{
    assert(((id as int * 65536) as u32) as int == id as int * 65536) by (nonlinear_arith)
        requires id < 65536;
    assert((id as int * 65536) / 65536 == id as int) by (nonlinear_arith);
}

/// Extractors sorted by content type (stably, so extractors of one type
/// run in registration order), with a table from each type id to the
/// range of its extractors.
pub struct ExtractorList<T, CT: ContentType> {
    inner: PluginsList<(CT, T)>,
}

impl<T, CT: ContentType> ExtractorList<T, CT> {
    /// The extractors in the order they run.
    pub closed spec fn spec_plugins(&self) -> Seq<(CT, T)> {
        self.inner.spec_plugins().map_values(|p: (u32, (CT, T))| p.1)
    }

    pub closed spec fn wf(&self) -> bool {
        &&& self.inner.wf()
        &&& self.inner.spec_max_count() == CT::COUNT
        &&& forall|i: int| 0 <= i < self.inner.spec_plugins().len() ==>
            (#[trigger] self.inner.spec_plugins()[i]).0 == tagged(self.inner.spec_plugins()[i].1).0
    }

    /// The range of the extractors registered for type id `id`, when it
    /// has any.
    pub closed spec fn spec_range(&self, id: int) -> Option<(usize, usize)> {
        self.inner.spec_range(id)
    }

    /// Sorts `plugins` by content type, keeping registration order within
    /// a type, and indexes them by type id.
    pub fn new(plugins: Vec<(CT, T)>) -> (r: Self)
        requires
            plugins@.len() < 65535,
        ensures
            r.wf(),
            r.spec_plugins() == stable_sort(plugins@, id_key::<CT, T>()),
    {
        let ghost orig = plugins@;
        let mut tagged_plugins: Vec<(u32, (CT, T))> = Vec::new();
        let mut rest = plugins;
        let mut i: usize = 0;
        let total: usize = rest.len();
        while rest.len() > 0
            invariant
                i <= orig.len(),
                orig.len() == total,
                rest@ == orig.skip(i as int),
                tagged_plugins@.len() == i,
                forall|j: int| 0 <= j < i ==> #[trigger] tagged_plugins@[j] == tagged(orig[j]),
                forall|j: int| 0 <= j < i ==> (#[trigger] orig[j]).0.id() < CT::COUNT,
            decreases rest@.len(),
        {
            let x = rest.remove(0);
            assert(x == orig[i as int]);
            let id = x.0.as_u16();
            let hash: u32 = (id as u32) << 16u32;
            assert(((id as u32) << 16u32) == (id as int * 65536) as u32) by (bit_vector);
            tagged_plugins.push((hash, x));
            i = i + 1;
        }
        let ghost tv = tagged_plugins@;
        let ghost untag = |p: (u32, (CT, T))| p.1;
        proof {
            assert(tv.map_values(untag) =~= orig);
            assert forall|j: int| 0 <= j < tv.len() implies #[trigger] hash_type(tv[j].0) < CT::COUNT by {
                assert(tv[j] == tagged(orig[j]));
                lemma_tag(orig[j].0.id());
            }
            assert forall|j: int| 0 <= j < tv.len() implies scaled_id_key::<CT, T>()(untag(#[trigger] tv[j]))
                == hash_key::<(CT, T)>()(tv[j]) by {
                assert(tv[j] == tagged(orig[j]));
                lemma_tag(orig[j].0.id());
            }
            lemma_stable_sort_map(tv, untag, hash_key::<(CT, T)>(), scaled_id_key::<CT, T>());
            crate::sorting::lemma_stable_sort_equiv(orig, scaled_id_key::<CT, T>(), id_key::<CT, T>());
        }
        let inner = PluginsList::new(tagged_plugins, CT::COUNT);
        let r = Self { inner };
        proof {
            assert(r.spec_plugins() == stable_sort(tv, hash_key::<(CT, T)>()).map_values(untag));
            crate::sorting::lemma_stable_sort_elems(tv, hash_key::<(CT, T)>());
            let sp = r.inner.spec_plugins();
            assert forall|i: int| 0 <= i < sp.len() implies (#[trigger] sp[i]).0 == tagged(sp[i].1).0 by {
                let j = choose|j: int| 0 <= j < tv.len() && tv[j] == sp[i];
                assert(tv[j] == tagged(orig[j]));
            }
        }
        r
    }

    /// The range of a content type holds exactly the extractors registered
    /// for that type, and no other range does.
    pub proof fn lemma_range_exact(&self, ct: CT)
        requires
            self.wf(),
            ct.id() < CT::COUNT,
        ensures
            self.spec_range(ct.id() as int) matches Some((a, b)) ==> forall|i: int| 0 <= i < self.spec_plugins().len()
                ==> (a <= i < b <==> (#[trigger] self.spec_plugins()[i]).0.id() == ct.id()),
            self.spec_range(ct.id() as int) is None ==> forall|i: int| 0 <= i < self.spec_plugins().len()
                ==> (#[trigger] self.spec_plugins()[i]).0.id() != ct.id(),
    {
        let id = ct.id() as int;
        self.inner.lemma_range_exact(id);
        let sp = self.inner.spec_plugins();
        assert forall|i: int| 0 <= i < sp.len() implies hash_type((#[trigger] sp[i]).0) == sp[i].1.0.id() by {
            lemma_tag(sp[i].1.0.id());
        }
    }

    /// The range of the extractors registered for `content_type`.
    pub fn range(&self, content_type: CT) -> (r: Option<(usize, usize)>)
        requires
            self.wf(),
        ensures
            r == self.spec_range(content_type.id() as int),
            r matches Some((a, b)) ==> a < b <= self.spec_plugins().len()
                && forall|i: int| a <= i < b ==> (#[trigger] self.spec_plugins()[i]).0.id() == content_type.id(),
    {
        let r = self.inner.range(content_type);
        proof {
            if let Some((a, b)) = r {
                let sp = self.inner.spec_plugins();
                assert forall|i: int| a <= i < b implies (#[trigger] self.spec_plugins()[i]).0.id() == content_type.id() by {
                    assert(hash_type(sp[i].0) == content_type.id());
                    assert(sp[i].0 == tagged(sp[i].1).0);
                    lemma_tag(sp[i].1.0.id());
                }
            }
        }
        r
    }

    /// The extractor at `index`, for mutation.
    pub fn get(&mut self, index: usize) -> (r: &mut T)
        requires
            index < old(self).spec_plugins().len(),
        ensures
            *r == old(self).spec_plugins()[index as int].1,
            final(self).spec_plugins() == old(self).spec_plugins().update(index as int, (old(self).spec_plugins()[index as int].0, *final(r))),
            old(self).wf() ==> final(self).wf(),
    {
        &mut self.inner.get(index).1
    }

    /// Number of extractors.
    pub fn len(&self) -> (r: usize)
        ensures
            r == self.spec_plugins().len(),
    {
        self.inner.len()
    }
}

} // verus!
