use vstd::prelude::*;
use vstd::string::StringSliceAdditionalSpecFns;
use std::collections::HashMap;
use crate::content::{Content, ContentType};
use crate::interfaces::{ContentIdentifier, IdentifyMethod};
use crate::matcher::{builder_exact, builder_prefix, matcher_fits, Matcher, MatcherBuilder};
use crate::utils::{ascii_lower_static, contains_uppercase, copy_lowercase, extension_of, get_extension, lower_seq};

verus! {

broadcast use vstd::std_specs::hash::group_hash_axioms;

/// The magic patterns an identify method registers for `ct`.
pub open spec fn magic_patterns<T>(ct: T, m: Option<IdentifyMethod>) -> Seq<(T, Seq<u8>)> {
    match m {
        Some(IdentifyMethod::Magic(b)) => seq![(ct, b@)],
        Some(IdentifyMethod::MultipleMagic(items)) => items@.map_values(|b: &'static [u8]| (ct, b@)),
        _ => Seq::empty(),
    }
}

/// The lowercase extension patterns an identify method registers for `ct`.
pub open spec fn extension_patterns<T>(ct: T, m: Option<IdentifyMethod>) -> Seq<(T, Seq<u8>)> {
    match m {
        Some(IdentifyMethod::Extension(s)) => seq![(ct, lower_seq(s.spec_bytes()))],
        Some(IdentifyMethod::Extensions(items)) => items@.map_values(|s: &'static str| (ct, lower_seq(s.spec_bytes()))),
        _ => Seq::empty(),
    }
}

/// The lowercase file-name patterns an identify method registers for `ct`.
pub open spec fn name_patterns<T>(ct: T, m: Option<IdentifyMethod>) -> Seq<(T, Seq<u8>)> {
    match m {
        Some(IdentifyMethod::Name(s)) => seq![(ct, lower_seq(s.spec_bytes()))],
        Some(IdentifyMethod::Names(items)) => items@.map_values(|s: &'static str| (ct, lower_seq(s.spec_bytes()))),
        _ => Seq::empty(),
    }
}

/// Which pattern family.
pub open spec fn family_patterns<T>(family: int, ct: T, m: Option<IdentifyMethod>) -> Seq<(T, Seq<u8>)> {
    if family == 0 {
        magic_patterns(ct, m)
    } else if family == 1 {
        extension_patterns(ct, m)
    } else {
        name_patterns(ct, m)
    }
}

/// All patterns of one family registered by `ids`, in registration order.
pub open spec fn all_patterns<T>(family: int, ids: Seq<(T, Option<IdentifyMethod>)>) -> Seq<(T, Seq<u8>)>
    decreases ids.len(),
{
    if ids.len() == 0 {
        Seq::empty()
    } else {
        all_patterns(family, ids.drop_last()) + family_patterns(family, ids.last().0, ids.last().1)
    }
}

/// The types registered without an identify method, in registration order.
pub open spec fn no_prefilter<T>(ids: Seq<(T, Option<IdentifyMethod>)>) -> Seq<T>
    decreases ids.len(),
{
    if ids.len() == 0 {
        Seq::empty()
    } else if ids.last().1 is None {
        no_prefilter(ids.drop_last()).push(ids.last().0)
    } else {
        no_prefilter(ids.drop_last())
    }
}

/// The patterns of one family can be compiled into a matcher.
pub open spec fn family_fits<T: ContentType>(family: int, ids: Seq<(T, Option<IdentifyMethod>)>) -> bool {
    matcher_fits(all_patterns(family, ids))
}

/// Every magic pattern is at most 16 bytes.
pub open spec fn magics_short<T>(ids: Seq<(T, Option<IdentifyMethod>)>) -> bool {
    forall|i: int| 0 <= i < all_patterns(0, ids).len() ==> (#[trigger] all_patterns(0, ids)[i]).1.len() <= 16
}

/// The identifiers can be compiled: every pattern family fits a matcher
/// and magic patterns are at most 16 bytes.
pub open spec fn identifiers_buildable<T: ContentType>(ids: Seq<(T, Option<IdentifyMethod>)>) -> bool {
    &&& family_fits(0, ids)
    &&& family_fits(1, ids)
    &&& family_fits(2, ids)
    &&& magics_short(ids)
}

/// Appends the patterns of family `family` that `m` registers for `ct`.
pub(crate) fn add_family_patterns<T: ContentType>(mb: &mut MatcherBuilder<T>, family: u8, ct: T, m: &Option<IdentifyMethod>)
    requires
        family < 3,
    ensures
        final(mb)@ == old(mb)@ + family_patterns(family as int, ct, *m),
{
    let ghost before = mb@;
    let ghost fam = family_patterns(family as int, ct, *m);
    match m {
        Some(IdentifyMethod::Magic(b)) => {
            if family == 0 {
                mb.add(ct, b);
            }
        },
        Some(IdentifyMethod::MultipleMagic(items)) => {
            if family == 0 {
                let mut k: usize = 0;
                while k < items.len()
                    invariant
                        k <= items@.len(),
                        family == 0,
                        fam == family_patterns(family as int, ct, *m),
                        *m == Some(IdentifyMethod::MultipleMagic(*items)),
                        mb@ == before + fam.take(k as int),
                    decreases items@.len() - k,
                {
                    mb.add(ct, items[k]);
                    assert(fam.take(k + 1) =~= fam.take(k as int).push((ct, items@[k as int]@)));
                    k = k + 1;
                }
                assert(fam.take(k as int) == fam);
            }
        },
        Some(IdentifyMethod::Extension(x)) => {
            if family == 1 {
                mb.add(ct, ascii_lower_static(x));
            }
        },
        Some(IdentifyMethod::Extensions(items)) => {
            if family == 1 {
                let mut k: usize = 0;
                while k < items.len()
                    invariant
                        k <= items@.len(),
                        family == 1,
                        fam == family_patterns(family as int, ct, *m),
                        *m == Some(IdentifyMethod::Extensions(*items)),
                        mb@ == before + fam.take(k as int),
                    decreases items@.len() - k,
                {
                    mb.add(ct, ascii_lower_static(items[k]));
                    assert(fam.take(k + 1) =~= fam.take(k as int).push((ct, lower_seq(items@[k as int].spec_bytes()))));
                    k = k + 1;
                }
                assert(fam.take(k as int) == fam);
            }
        },
        Some(IdentifyMethod::Name(x)) => {
            if family == 2 {
                mb.add(ct, ascii_lower_static(x));
            }
        },
        Some(IdentifyMethod::Names(items)) => {
            if family == 2 {
                let mut k: usize = 0;
                while k < items.len()
                    invariant
                        k <= items@.len(),
                        family == 2,
                        fam == family_patterns(family as int, ct, *m),
                        *m == Some(IdentifyMethod::Names(*items)),
                        mb@ == before + fam.take(k as int),
                    decreases items@.len() - k,
                {
                    mb.add(ct, ascii_lower_static(items[k]));
                    assert(fam.take(k + 1) =~= fam.take(k as int).push((ct, lower_seq(items@[k as int].spec_bytes()))));
                    k = k + 1;
                }
                assert(fam.take(k as int) == fam);
            }
        },
        None => {},
    }
    assert(mb@ =~= before + fam);
}


/// Some identifier is registered for the type id `k`.
pub open spec fn registered<T: ContentType>(ids: Seq<(T, Option<IdentifyMethod>)>, k: u16) -> bool {
    exists|j: int| 0 <= j < ids.len() && (#[trigger] ids[j]).0.id() == k
}

/// The keys of a map after an insertion: the new key and the old ones.
proof fn lemma_insert_keys<V>(m: Map<u16, V>, k: u16, v: V)
    ensures
        forall|j: u16| #[trigger] m.insert(k, v).contains_key(j) <==> j == k || m.contains_key(j),
{
}

/// `o` as a sequence of zero or one element.
pub open spec fn option_seq<T>(o: Option<T>) -> Seq<T> {
    match o {
        Some(t) => seq![t],
        None => Seq::empty(),
    }
}

/// The types tried for a content, in order: the one whose magic pattern
/// begins `head` (its first bytes, when they were read), the ones whose
/// file-name and extension patterns match `file_name`, then the types
/// registered without an identify method.
pub open spec fn candidate_types<T>(ids: Seq<(T, Option<IdentifyMethod>)>, file_name: Seq<u8>, head: Option<Seq<u8>>) -> Seq<T> {
    option_seq(match head {
        Some(h) => builder_prefix(all_patterns(0, ids), h),
        None => None,
    }) + option_seq(builder_exact(all_patterns(2, ids), lower_seq(file_name)))
        + option_seq(builder_exact(all_patterns(1, ids), lower_seq(extension_of(file_name)))) + no_prefilter(ids)
}

/// `head` viewed as bytes.
pub open spec fn head_view(head: Option<&[u8]>) -> Option<Seq<u8>> {
    match head {
        Some(h) => Some(h@),
        None => None,
    }
}

/// The first candidate whose verdict accepts it.
pub open spec fn first_accepted<T>(cands: Seq<T>, verdicts: Seq<bool>) -> Option<T>
    decreases cands.len(),
{
    if cands.len() == 0 || verdicts.len() == 0 {
        None
    } else if verdicts[0] {
        Some(cands[0])
    } else {
        first_accepted(cands.drop_first(), verdicts.drop_first())
    }
}

/// Rejecting the first `k` candidates and accepting the next picks it.
pub proof fn lemma_first_accepted_at<T>(cands: Seq<T>, k: int)
    requires
        0 <= k < cands.len(),
    ensures
        first_accepted(cands, Seq::new(k as nat, |i: int| false).push(true)) == Some(cands[k]),
    decreases k,
{
    let v = Seq::new(k as nat, |i: int| false).push(true);
    if k > 0 {
        assert(v.drop_first() =~= Seq::new((k - 1) as nat, |i: int| false).push(true));
        lemma_first_accepted_at(cands.drop_first(), k - 1);
    }
}

/// Rejecting every candidate picks none.
pub proof fn lemma_first_accepted_none<T>(cands: Seq<T>)
    ensures
        first_accepted(cands, Seq::new(cands.len(), |i: int| false)) is None,
    decreases cands.len(),
{
    if cands.len() > 0 {
        assert(Seq::new(cands.len(), |i: int| false).drop_first() =~= Seq::new(cands.drop_first().len(), |i: int| false));
        lemma_first_accepted_none(cands.drop_first());
    }
}

/// The registered identifiers, with matchers for their magic, extension and
/// file-name patterns.
#[verifier::reject_recursive_types(T)]
pub struct IdentifierSet<T: ContentType> {
    identifiers: HashMap<u16, Box<dyn ContentIdentifier<T>>>,
    magics: Matcher<T>,
    extensions: Matcher<T>,
    names: Matcher<T>,
    no_prefilter_list: Vec<T>,
    temp_buffer: Vec<u8>,
    spec_ids: Ghost<Seq<(T, Option<IdentifyMethod>)>>,
}

impl<T: ContentType> IdentifierSet<T> {
    /// The identifiers' types and identify methods, in registration order.
    pub closed spec fn spec_ids(&self) -> Seq<(T, Option<IdentifyMethod>)> {
        self.spec_ids@
    }

    pub closed spec fn wf(&self) -> bool {
        &&& forall|d: Seq<u8>| #[trigger] self.magics.spec_starts_with(d) == builder_prefix(all_patterns(0, self.spec_ids@), d)
        &&& forall|d: Seq<u8>| #[trigger] self.extensions.spec_matches_exactly(d) == builder_exact(all_patterns(1, self.spec_ids@), d)
        &&& forall|d: Seq<u8>| #[trigger] self.names.spec_matches_exactly(d) == builder_exact(all_patterns(2, self.spec_ids@), d)
        &&& self.no_prefilter_list@ == no_prefilter(self.spec_ids@)
        &&& (self.magics is Empty <==> all_patterns(0, self.spec_ids@).len() == 0)
        &&& forall|k: u16| #[trigger] self.identifiers@.contains_key(k) <==> registered(self.spec_ids@, k)
    }

    /// Compiles the identifiers: each one's patterns go to the magic,
    /// extension or file-name matcher (lowercased for the last two), and
    /// those without an identify method are kept in order for last.
    pub fn new(identifiers: Vec<(T, Box<dyn ContentIdentifier<T>>, Option<IdentifyMethod>)>) -> (r: Self)
        requires
            identifiers_buildable(identifiers@.map_values(|x: (T, Box<dyn ContentIdentifier<T>>, Option<IdentifyMethod>)| (x.0, x.2))),
        ensures
            r.wf(),
            r.spec_ids() == identifiers@.map_values(|x: (T, Box<dyn ContentIdentifier<T>>, Option<IdentifyMethod>)| (x.0, x.2)),
    {
        let ghost proj = |x: (T, Box<dyn ContentIdentifier<T>>, Option<IdentifyMethod>)| (x.0, x.2);
        let ghost all = identifiers@.map_values(proj);
        let mut map: HashMap<u16, Box<dyn ContentIdentifier<T>>> = HashMap::new();
        let mut magics: MatcherBuilder<T> = MatcherBuilder::new();
        let mut extensions: MatcherBuilder<T> = MatcherBuilder::new();
        let mut names: MatcherBuilder<T> = MatcherBuilder::new();
        let mut no_prefilter_list: Vec<T> = Vec::new();
        let mut rest = identifiers;
        let ghost orig = rest@;
        let mut i: usize = 0;
        let total: usize = rest.len();
        while rest.len() > 0
            invariant
                i <= orig.len(),
                orig.len() == total,
                all.len() == orig.len(),
                forall|k: int| 0 <= k < orig.len() ==> #[trigger] all[k] == (orig[k].0, orig[k].2),
                rest@ == orig.skip(i as int),
                magics@ == all_patterns(0, all.take(i as int)),
                extensions@ == all_patterns(1, all.take(i as int)),
                names@ == all_patterns(2, all.take(i as int)),
                no_prefilter_list@ == no_prefilter(all.take(i as int)),
                forall|k: u16| #[trigger] map@.contains_key(k) <==> registered(all.take(i as int), k),
            decreases rest@.len(),
        {
            let (content_type, identifier, method) = rest.remove(0);
            let ghost x = orig[i as int];
            assert(x == (content_type, identifier, method));
            let ghost before_m = magics@;
            let ghost before_e = extensions@;
            let ghost before_n = names@;
            proof {
                assert(all[i as int] == (content_type, method));
                assert(all.take(i + 1).drop_last() == all.take(i as int));
                assert(all.take(i + 1).last() == (content_type, method));
            }
            match method {
                Some(IdentifyMethod::Magic(magic)) => {
                    magics.add(content_type, magic);
                    assert(magics@ =~= before_m + magic_patterns(content_type, method));
                },
                Some(IdentifyMethod::MultipleMagic(items)) => {
                    let mut k: usize = 0;
                    while k < items.len()
                        invariant
                            k <= items@.len(),
                            method == Some(IdentifyMethod::MultipleMagic(items)),
                            magics@ == before_m + magic_patterns(content_type, method).take(k as int),
                        decreases items@.len() - k,
                    {
                        magics.add(content_type, items[k]);
                        assert(magic_patterns(content_type, method).take(k + 1)
                            =~= magic_patterns(content_type, method).take(k as int).push((content_type, items@[k as int]@)));
                        k = k + 1;
                    }
                    assert(magic_patterns(content_type, method).take(k as int) == magic_patterns(content_type, method));
                },
                Some(IdentifyMethod::Extension(ext)) => {
                    extensions.add(content_type, ascii_lower_static(ext));
                    assert(extensions@ =~= before_e + extension_patterns(content_type, method));
                },
                Some(IdentifyMethod::Extensions(items)) => {
                    let mut k: usize = 0;
                    while k < items.len()
                        invariant
                            k <= items@.len(),
                            method == Some(IdentifyMethod::Extensions(items)),
                            extensions@ == before_e + extension_patterns(content_type, method).take(k as int),
                        decreases items@.len() - k,
                    {
                        extensions.add(content_type, ascii_lower_static(items[k]));
                        assert(extension_patterns(content_type, method).take(k + 1)
                            =~= extension_patterns(content_type, method).take(k as int).push(
                                (content_type, lower_seq(items@[k as int].spec_bytes()))));
                        k = k + 1;
                    }
                    assert(extension_patterns(content_type, method).take(k as int) == extension_patterns(content_type, method));
                },
                Some(IdentifyMethod::Name(name)) => {
                    names.add(content_type, ascii_lower_static(name));
                    assert(names@ =~= before_n + name_patterns(content_type, method));
                },
                Some(IdentifyMethod::Names(items)) => {
                    let mut k: usize = 0;
                    while k < items.len()
                        invariant
                            k <= items@.len(),
                            method == Some(IdentifyMethod::Names(items)),
                            names@ == before_n + name_patterns(content_type, method).take(k as int),
                        decreases items@.len() - k,
                    {
                        names.add(content_type, ascii_lower_static(items[k]));
                        assert(name_patterns(content_type, method).take(k + 1)
                            =~= name_patterns(content_type, method).take(k as int).push(
                                (content_type, lower_seq(items@[k as int].spec_bytes()))));
                        k = k + 1;
                    }
                    assert(name_patterns(content_type, method).take(k as int) == name_patterns(content_type, method));
                },
                None => {
                    no_prefilter_list.push(content_type);
                },
            }
            proof {
                assert(magics@ =~= before_m + magic_patterns(content_type, method));
                assert(extensions@ =~= before_e + extension_patterns(content_type, method));
                assert(names@ =~= before_n + name_patterns(content_type, method));
            }
            let id = content_type.as_u16();
            let ghost before_map = map@;
            let ghost boxed = identifier;
            map.insert(id, identifier);
            proof {
                let now = all.take(i + 1);
                let was = all.take(i as int);
                assert(map@ == before_map.insert(id, boxed));
                lemma_insert_keys(before_map, id, boxed);
                assert forall|k: u16| #[trigger] map@.contains_key(k) <==> registered(now, k) by {
                    assert(before_map.contains_key(k) <==> registered(was, k));
                    if registered(was, k) {
                        let j = choose|j: int| 0 <= j < was.len() && (#[trigger] was[j]).0.id() == k;
                        assert(now[j] == was[j]);
                    }
                    if registered(now, k) {
                        let j = choose|j: int| 0 <= j < now.len() && (#[trigger] now[j]).0.id() == k;
                        if j < i {
                            assert(was[j] == now[j]);
                        } else {
                            assert(now[j] == all[i as int]);
                        }
                    }
                    if k == id {
                        assert(now[i as int] == all[i as int]);
                    }
                }
            }
            i = i + 1;
        }
        proof {
            assert(all.take(i as int) == all);
        }
        let magic_matcher = magics.build();
        let ext_matcher = extensions.build();
        let name_matcher = names.build();
        let r = Self {
            identifiers: map,
            magics: magic_matcher,
            extensions: ext_matcher,
            names: name_matcher,
            no_prefilter_list,
            temp_buffer: Vec::new(),
            spec_ids: Ghost(all),
        };
        r
    }

    /// The identifier registered for `content_type`, if any.
    pub fn get(&self, content_type: T) -> (r: Option<&Box<dyn ContentIdentifier<T>>>)
        requires
            self.wf(),
        ensures
            r is Some <==> registered(self.spec_ids(), content_type.id()),
    {
        self.identifiers.get(&content_type.as_u16())
    }

    /// Some identifier registered a magic pattern.
    pub fn has_magic(&self) -> (r: bool)
        requires
            self.wf(),
        ensures
            r == (all_patterns(0, self.spec_ids()).len() > 0),
    {
        match self.magics {
            Matcher::Empty => false,
            _ => true,
        }
    }

    /// The type whose file-name pattern equals `file_name` (ASCII
    /// case-insensitive).
    pub fn type_from_file_name(&mut self, file_name: &[u8]) -> (r: Option<T>)
        requires
            old(self).wf(),
        ensures
            final(self).wf(),
            final(self).spec_ids() == old(self).spec_ids(),
            r == builder_exact(all_patterns(2, old(self).spec_ids()), lower_seq(file_name@)),
    {
        let b: &[u8] = if contains_uppercase(file_name) {
            copy_lowercase(file_name, &mut self.temp_buffer)
        } else {
            proof { crate::utils::lemma_lower_no_upper(file_name@); }
            file_name
        };
        self.names.matches_exactly(b)
    }

    /// The type whose extension pattern equals `extension` (ASCII
    /// case-insensitive).
    pub fn type_from_extension(&mut self, extension: &[u8]) -> (r: Option<T>)
        requires
            old(self).wf(),
        ensures
            final(self).wf(),
            final(self).spec_ids() == old(self).spec_ids(),
            r == builder_exact(all_patterns(1, old(self).spec_ids()), lower_seq(extension@)),
    {
        let b: &[u8] = if contains_uppercase(extension) {
            copy_lowercase(extension, &mut self.temp_buffer)
        } else {
            proof { crate::utils::lemma_lower_no_upper(extension@); }
            extension
        };
        self.extensions.matches_exactly(b)
    }

    /// The type of the magic pattern that begins `buffer`.
    pub fn type_from_magic(&self, buffer: &[u8]) -> (r: Option<T>)
        requires
            self.wf(),
        ensures
            r == builder_prefix(all_patterns(0, self.spec_ids()), buffer@),
    {
        self.magics.starts_with(buffer)
    }

    /// The types to try, in order, for a content whose file name is
    /// `file_name` and whose first bytes are `head` (when they were read):
    /// the magic candidate, the file-name candidate, the extension
    /// candidate, then the types without an identify method.
    pub fn candidates(&mut self, file_name: &[u8], head: Option<&[u8]>) -> (r: Vec<T>)
        requires
            old(self).wf(),
        ensures
            final(self).wf(),
            final(self).spec_ids() == old(self).spec_ids(),
            r@ == candidate_types(old(self).spec_ids(), file_name@, head_view(head)),
    {
        let ghost ids = self.spec_ids();
        let mut out: Vec<T> = Vec::new();
        let from_magic = match head {
            Some(h) => self.type_from_magic(h),
            None => None,
        };
        if let Some(t) = from_magic {
            out.push(t);
        }
        let ghost a = out@;
        assert(a =~= option_seq(from_magic));
        let from_name = self.type_from_file_name(file_name);
        if let Some(t) = from_name {
            out.push(t);
        }
        let ghost b = out@;
        assert(b =~= a + option_seq(from_name));
        let extension = get_extension(file_name);
        let from_ext = self.type_from_extension(extension);
        if let Some(t) = from_ext {
            out.push(t);
        }
        let ghost c = out@;
        assert(c =~= b + option_seq(from_ext));
        let rest = &self.no_prefilter_list;
        let mut i: usize = 0;
        while i < rest.len()
            invariant
                i <= rest@.len(),
                out@ == c + rest@.take(i as int),
            decreases rest@.len() - i,
        {
            out.push(rest[i]);
            assert(rest@.take(i + 1) == rest@.take(i as int).push(rest@[i as int]));
            i = i + 1;
        }
        assert(rest@.take(i as int) == rest@);
        out
    }

    /// The types registered without an identify method, in registration
    /// order.
    pub fn identifiers_without_prefilter(&self) -> (r: &Vec<T>)
        requires
            self.wf(),
        ensures
            r@ == no_prefilter(self.spec_ids()),
    {
        &self.no_prefilter_list
    }
}

} // verus!
