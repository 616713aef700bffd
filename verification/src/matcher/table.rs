use vstd::prelude::*;
use crate::content::ContentType;
use crate::matcher::packed_linear_list::pattern_view;
use crate::matcher::patterns::last_equal;
use crate::matcher::trie::{longest_prefix_value, map_get, node_count, words_map, Trie, TrieBuilder};

verus! {

/// Each pattern's bytes with its content type's identifier as the value.
pub open spec fn tagged<T: ContentType>(ps: Seq<(T, Seq<u8>)>) -> Seq<(Seq<u8>, u16)> {
    Seq::new(ps.len(), |i: int| (ps[i].1, ps[i].0.id()))
}

/// How many nodes the trie of `ps` needs.
pub open spec fn trie_nodes<T: ContentType>(ps: Seq<(T, Seq<u8>)>) -> int {
    node_count(tagged(ps))
}

/// `o` mapped to the identifier of its type.
pub open spec fn opt_id<T: ContentType>(o: Option<T>) -> Option<u16> {
    match o {
        Some(t) => Some(t.id()),
        None => None,
    }
}

/// The content type of the last pattern equal to the longest prefix of `d`
/// that some pattern equals.
pub open spec fn longest_prefix_last<T>(ps: Seq<(T, Seq<u8>)>, d: Seq<u8>) -> Option<T>
    decreases d.len(),
{
    if last_equal(ps, d) is Some {
        last_equal(ps, d)
    } else if d.len() == 0 {
        None
    } else {
        longest_prefix_last(ps, d.drop_last())
    }
}

proof fn lemma_tagged_exact<T: ContentType>(ps: Seq<(T, Seq<u8>)>, d: Seq<u8>)
    ensures
        map_get(words_map(tagged(ps)), d) == opt_id(last_equal(ps, d)),
    decreases ps.len(),
{
    if ps.len() > 0 {
        let init = ps.drop_last();
        lemma_tagged_exact(init, d);
        assert(tagged(ps).drop_last() == tagged(init));
        assert(tagged(ps).last() == (ps.last().1, ps.last().0.id()));
    }
}

proof fn lemma_tagged_prefix<T: ContentType>(ps: Seq<(T, Seq<u8>)>, d: Seq<u8>)
    ensures
        longest_prefix_value(words_map(tagged(ps)), d) == opt_id(longest_prefix_last(ps, d)),
    decreases d.len(),
{
    lemma_tagged_exact(ps, d);
    if d.len() > 0 {
        lemma_tagged_prefix(ps, d.drop_last());
    }
}

/// The type whose identifier is `v`, where `v` is the identifier of `t`.
fn type_of_id<T: ContentType>(v: u16, Ghost(t): Ghost<T>) -> (r: Option<T>)
    requires
        v == t.id(),
    ensures
        r == Some(t),
{
    match T::from_u16(v) {
        Some(x) => {
            proof {
                T::lemma_id_unique(x, t);
            }
            Some(x)
        },
        None => {
            assert(t.id() != v);
            None
        },
    }
}

/// A trie over a list of patterns whose values are the identifiers of the
/// patterns' content types.
pub struct TrieTable<T: ContentType> {
    trie: Trie,
    patterns: Ghost<Seq<(T, Seq<u8>)>>,
}

impl<T: ContentType> TrieTable<T> {
    #[verifier::type_invariant]
    spec fn inv(self) -> bool {
        self.trie@ == words_map(tagged(self.patterns@))
    }

    /// The patterns the table was made of, in order.
    pub closed spec fn spec_patterns(&self) -> Seq<(T, Seq<u8>)> {
        self.patterns@
    }

    /// Compiles `patterns` into a trie; `None` when it would need more than
    /// 65536 nodes.
    pub fn try_new(patterns: &[(T, &'static [u8])]) -> (r: Option<Self>)
        ensures
            r is Some <==> trie_nodes(pattern_view(patterns@)) <= 65536,
            r matches Some(t) ==> t.spec_patterns() == pattern_view(patterns@),
    {
        let ghost pv = pattern_view(patterns@);
        let mut builder = TrieBuilder::new();
        let mut i: usize = 0;
        while i < patterns.len()
            invariant
                pv == pattern_view(patterns@),
                i <= patterns@.len(),
                builder@ == tagged(pv.take(i as int)),
            decreases patterns@.len() - i,
        {
            let (ct, data) = patterns[i];
            builder.add(data, ct.as_u16());
            proof {
                assert(builder@ =~= tagged(pv.take(i + 1)));
            }
            i = i + 1;
        }
        proof {
            assert(pv.take(i as int) == pv);
        }
        match builder.try_build() {
            Some(trie) => Some(Self { trie, patterns: Ghost(pv) }),
            None => None,
        }
    }

    /// The content type of the last pattern equal to `data`.
    pub fn matches_exactly(&self, data: &[u8]) -> (r: Option<T>)
        ensures
            r == last_equal(self.spec_patterns(), data@),
    {
        proof {
            use_type_invariant(self);
            lemma_tagged_exact(self.patterns@, data@);
        }
        match self.trie.matches_exactly(data) {
            Some(v) => type_of_id(v, Ghost(last_equal(self.patterns@, data@)->0)),
            None => None,
        }
    }

    /// The content type of the last pattern equal to the longest prefix of
    /// `data` that some pattern equals.
    pub fn starts_with(&self, data: &[u8]) -> (r: Option<T>)
        ensures
            r == longest_prefix_last(self.spec_patterns(), data@),
    {
        proof {
            use_type_invariant(self);
            lemma_tagged_prefix(self.patterns@, data@);
        }
        match self.trie.starts_with(data) {
            Some(v) => type_of_id(v, Ghost(longest_prefix_last(self.patterns@, data@)->0)),
            None => None,
        }
    }
}

} // verus!
