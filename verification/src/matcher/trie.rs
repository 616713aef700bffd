use vstd::prelude::*;

verus! {

/// One outgoing edge of a trie node: the byte it consumes and the node it
/// leads to.
#[derive(Clone, Copy)]
pub struct TrieStep {
    pub index: u16,
    pub symbol: u8,
}

/// The outgoing edges of a trie node, stored inline while there are few of
/// them and as a vector sorted by symbol once there are four or more.
pub enum TrieChildren {
    Empty,
    One(TrieStep),
    Two((TrieStep, TrieStep)),
    Three((TrieStep, TrieStep, TrieStep)),
    Many(Vec<TrieStep>),
}

/// The edges of a child list, in storage order.
pub open spec fn children_seq(c: TrieChildren) -> Seq<TrieStep> {
    match c {
        TrieChildren::Empty => Seq::empty(),
        TrieChildren::One(a) => seq![a],
        TrieChildren::Two((a, b)) => seq![a, b],
        TrieChildren::Three((a, b, d)) => seq![a, b, d],
        TrieChildren::Many(v) => v@,
    }
}

pub open spec fn steps_sorted(s: Seq<TrieStep>) -> bool {
    forall|i: int, j: int| 0 <= i < j < s.len() ==> s[i].symbol < s[j].symbol
}

pub open spec fn steps_distinct(s: Seq<TrieStep>) -> bool {
    forall|i: int, j: int| 0 <= i < s.len() && 0 <= j < s.len() && i != j ==> s[i].symbol != s[j].symbol
}

/// No symbol labels two edges, and a `Many` list is sorted by symbol.
pub open spec fn children_wf(c: TrieChildren) -> bool {
    &&& steps_distinct(children_seq(c))
    &&& (c is Many ==> steps_sorted(children_seq(c)) && children_seq(c).len() >= 4)
}

/// The node an edge list leads to over `symbol`, if an edge carries it.
pub open spec fn seq_child(s: Seq<TrieStep>, symbol: u8) -> Option<u16> {
    if exists|i: int| 0 <= i < s.len() && s[i].symbol == symbol {
        let i = choose|i: int| 0 <= i < s.len() && s[i].symbol == symbol;
        Some(s[i].index)
    } else {
        None
    }
}

/// The node reached from this list over `symbol`, if an edge carries it.
pub open spec fn child_of(c: TrieChildren, symbol: u8) -> Option<u16> {
    seq_child(children_seq(c), symbol)
}

proof fn lemma_seq_child_at(s: Seq<TrieStep>, i: int)
    requires
        steps_distinct(s),
        0 <= i < s.len(),
    ensures
        seq_child(s, s[i].symbol) == Some(s[i].index),
{
    let sym = s[i].symbol;
    assert(exists|k: int| 0 <= k < s.len() && s[k].symbol == sym);
    let k = choose|k: int| 0 <= k < s.len() && s[k].symbol == sym;
    assert(k == i);
}

proof fn lemma_child_of_at(c: TrieChildren, i: int)
    requires
        children_wf(c),
        0 <= i < children_seq(c).len(),
    ensures
        child_of(c, children_seq(c)[i].symbol) == Some(children_seq(c)[i].index),
{
    lemma_seq_child_at(children_seq(c), i);
}

/// Adding an edge whose symbol is new to a list changes what the list
/// leads to over that symbol only.
proof fn lemma_seq_child_insert(s: Seq<TrieStep>, pos: int, st: TrieStep)
    requires
        steps_distinct(s),
        0 <= pos <= s.len(),
        forall|j: int| 0 <= j < s.len() ==> s[j].symbol != st.symbol,
    ensures
        steps_distinct(s.insert(pos, st)),
        forall|sym: u8| #[trigger] seq_child(s.insert(pos, st), sym)
            == if sym == st.symbol { Some(st.index) } else { seq_child(s, sym) },
{
    let t = s.insert(pos, st);
    assert forall|i: int, j: int| 0 <= i < t.len() && 0 <= j < t.len() && i != j implies t[i].symbol != t[j].symbol by {
        if i < pos && j > pos { assert(t[j] == s[j - 1]); }
        if j < pos && i > pos { assert(t[i] == s[i - 1]); }
        if i > pos && j > pos { assert(t[i] == s[i - 1] && t[j] == s[j - 1]); }
    }
    assert forall|sym: u8| #[trigger] seq_child(t, sym)
        == if sym == st.symbol { Some(st.index) } else { seq_child(s, sym) } by {
        if sym == st.symbol {
            lemma_seq_child_at(t, pos);
        } else if exists|i: int| 0 <= i < s.len() && s[i].symbol == sym {
            let i = choose|i: int| 0 <= i < s.len() && s[i].symbol == sym;
            lemma_seq_child_at(s, i);
            if i < pos {
                assert(t[i] == s[i]);
                lemma_seq_child_at(t, i);
            } else {
                assert(t[i + 1] == s[i]);
                lemma_seq_child_at(t, i + 1);
            }
        } else {
            assert forall|k: int| 0 <= k < t.len() implies t[k].symbol != sym by {
                if k < pos { assert(t[k] == s[k]); }
                if k > pos { assert(t[k] == s[k - 1]); }
            }
        }
    }
}

/// Binary search over a vector sorted by symbol: the position of `symbol`,
/// or the position where it would have to be inserted.
fn search_sorted(v: &Vec<TrieStep>, symbol: u8) -> (r: Result<usize, usize>)
    requires
        steps_sorted(v@),
    ensures
        match r {
            Ok(i) => i < v@.len() && v@[i as int].symbol == symbol,
            Err(i) => {
                &&& i <= v@.len()
                &&& forall|j: int| 0 <= j < i ==> v@[j].symbol < symbol
                &&& forall|j: int| i <= j < v@.len() ==> v@[j].symbol > symbol
            },
        },
{
    let mut lo: usize = 0;
    let mut hi: usize = v.len();
    while lo < hi
        invariant
            lo <= hi <= v@.len(),
            steps_sorted(v@),
            forall|j: int| 0 <= j < lo ==> v@[j].symbol < symbol,
            forall|j: int| hi <= j < v@.len() ==> v@[j].symbol > symbol,
        decreases hi - lo,
    {
        let mid = lo + (hi - lo) / 2;
        let s = v[mid].symbol;
        if s == symbol {
            return Ok(mid);
        } else if s < symbol {
            lo = mid + 1;
        } else {
            hi = mid;
        }
    }
    Err(lo)
}

/// Inserts `step` into a vector sorted by symbol, keeping it sorted.
fn insert_sorted(v: &mut Vec<TrieStep>, step: TrieStep)
    requires
        steps_sorted(old(v)@),
        forall|j: int| 0 <= j < old(v)@.len() ==> old(v)@[j].symbol != step.symbol,
    ensures
        steps_sorted(final(v)@),
        exists|pos: int| 0 <= pos <= old(v)@.len() && final(v)@ == old(v)@.insert(pos, step),
{
    match search_sorted(v, step.symbol) {
        Ok(i) => {
            assert(false);
        },
        Err(i) => {
            let ghost o = v@;
            v.insert(i, step);
            assert(v@ == o.insert(i as int, step));
            assert forall|a: int, b: int| 0 <= a < b < v@.len() implies v@[a].symbol < v@[b].symbol by {
                if b < i {
                } else if a < i && b == i {
                } else if a < i && b > i {
                    assert(v@[b] == o[b - 1]);
                } else if a == i {
                    assert(v@[b] == o[b - 1]);
                } else {
                    assert(v@[a] == o[a - 1] && v@[b] == o[b - 1]);
                }
            }
        },
    }
}

proof fn lemma_sorted_distinct(s: Seq<TrieStep>)
    requires
        steps_sorted(s),
    ensures
        steps_distinct(s),
{
    assert forall|i: int, j: int| 0 <= i < s.len() && 0 <= j < s.len() && i != j implies s[i].symbol != s[j].symbol by {
        if i < j {} else {}
    }
}

impl TrieChildren {
    /// Adds an edge `symbol -> index`, unless an edge over `symbol` exists
    /// already (then the list is left as it is).
    pub fn insert(&mut self, symbol: u8, index: u16)
        requires
            children_wf(*old(self)),
        ensures
            children_wf(*final(self)),
            child_of(*old(self), symbol) is Some ==> *final(self) == *old(self),
            forall|sym: u8| #[trigger] child_of(*final(self), sym)
                == if sym == symbol && child_of(*old(self), symbol) is None { Some(index) } else { child_of(*old(self), sym) },
    {
        let ghost s = children_seq(*self);
        let st = TrieStep { index, symbol };
        let present = self.find(symbol).is_some();
        if present {
            return;
        }
        assert forall|j: int| 0 <= j < s.len() implies s[j].symbol != symbol by {
            lemma_child_of_at(*self, j);
        }
        proof { lemma_seq_child_insert(s, s.len() as int, st); }
        match self {
            TrieChildren::Empty => {
                *self = TrieChildren::One(st);
                assert(children_seq(*self) == s.insert(0, st));
            },
            TrieChildren::One(ts) => {
                let a = *ts;
                *self = TrieChildren::Two((a, st));
                assert(children_seq(*self) == s.insert(1, st));
            },
            TrieChildren::Two((ts1, ts2)) => {
                let a = *ts1;
                let b = *ts2;
                *self = TrieChildren::Three((a, b, st));
                assert(children_seq(*self) == s.insert(2, st));
            },
            TrieChildren::Three((ts1, ts2, ts3)) => {
                let a = *ts1;
                let b = *ts2;
                let d = *ts3;
                let mut v: Vec<TrieStep> = Vec::new();
                v.push(a);
                let ghost v0 = v@;
                assert(v0 == seq![a]);
                insert_sorted(&mut v, b);
                let ghost v1 = v@;
                let ghost p1 = choose|pos: int| 0 <= pos <= v0.len() && v1 == v0.insert(pos, b);
                assert(forall|j: int| 0 <= j < v1.len() ==> v1[j] == a || v1[j] == b) by {
                    assert forall|j: int| 0 <= j < v1.len() implies v1[j] == a || v1[j] == b by {
                        if j < p1 { assert(v1[j] == v0[j]); } else if j > p1 { assert(v1[j] == v0[j - 1]); }
                    }
                }
                insert_sorted(&mut v, d);
                let ghost v2 = v@;
                let ghost p2 = choose|pos: int| 0 <= pos <= v1.len() && v2 == v1.insert(pos, d);
                assert(forall|j: int| 0 <= j < v2.len() ==> v2[j] == a || v2[j] == b || v2[j] == d) by {
                    assert forall|j: int| 0 <= j < v2.len() implies v2[j] == a || v2[j] == b || v2[j] == d by {
                        if j < p2 { assert(v2[j] == v1[j]); } else if j > p2 { assert(v2[j] == v1[j - 1]); }
                    }
                }
                insert_sorted(&mut v, st);
                let ghost v3 = v@;
                let ghost p3 = choose|pos: int| 0 <= pos <= v2.len() && v3 == v2.insert(pos, st);
                let ghost full = seq![a, b, d, st];
                proof {
                    assert(s == seq![a, b, d]);
                    lemma_seq_child_insert(v0, p1, b);
                    lemma_seq_child_insert(v1, p2, d);
                    lemma_seq_child_insert(v2, p3, st);
                    assert(seq![a].insert(1, b) == seq![a, b]);
                    assert(seq![a, b].insert(2, d) == seq![a, b, d]);
                    assert(seq![a, b, d].insert(3, st) == full);
                    lemma_seq_child_insert(seq![a], 1, b);
                    lemma_seq_child_insert(seq![a, b], 2, d);
                    lemma_seq_child_insert(seq![a, b, d], 3, st);
                    assert forall|sym: u8| #[trigger] seq_child(v3, sym) == seq_child(full, sym) by {
                        assert(seq_child(v0, sym) == seq_child(seq![a], sym));
                    }
                    lemma_sorted_distinct(v3);
                    assert(children_seq(TrieChildren::Many(v)) == v3);
                }
                *self = TrieChildren::Many(v);
            },
            TrieChildren::Many(v) => {
                insert_sorted(v, st);
                proof {
                    let pos = choose|pos: int| 0 <= pos <= s.len() && v@ == s.insert(pos, st);
                    lemma_seq_child_insert(s, pos, st);
                    lemma_sorted_distinct(v@);
                }
            },
        }
    }

    /// The node reached over `symbol`, if any.
    pub fn find(&self, symbol: u8) -> (r: Option<u16>)
        requires
            children_wf(*self),
        ensures
            r == child_of(*self, symbol),
    {
        let ghost s = children_seq(*self);
        match self {
            TrieChildren::Empty => None,
            TrieChildren::One(trie_step) => {
                if trie_step.symbol == symbol {
                    proof { lemma_child_of_at(*self, 0); }
                    Some(trie_step.index)
                } else {
                    None
                }
            },
            TrieChildren::Two((ts1, ts2)) => {
                if ts1.symbol == symbol {
                    proof { lemma_child_of_at(*self, 0); }
                    Some(ts1.index)
                } else if ts2.symbol == symbol {
                    proof { lemma_child_of_at(*self, 1); }
                    Some(ts2.index)
                } else {
                    None
                }
            },
            TrieChildren::Three((ts1, ts2, ts3)) => {
                if ts1.symbol == symbol {
                    proof { lemma_child_of_at(*self, 0); }
                    Some(ts1.index)
                } else if ts2.symbol == symbol {
                    proof { lemma_child_of_at(*self, 1); }
                    Some(ts2.index)
                } else if ts3.symbol == symbol {
                    proof { lemma_child_of_at(*self, 2); }
                    Some(ts3.index)
                } else {
                    None
                }
            },
            TrieChildren::Many(v) => {
                match search_sorted(v, symbol) {
                    Ok(i) => {
                        proof { lemma_child_of_at(*self, i as int); }
                        Some(v[i].index)
                    },
                    Err(_) => None,
                }
            },
        }
    }
}

} // verus!

verus! {

pub struct TrieNode {
    pub children: TrieChildren,
    pub value: Option<u16>,
}

/// The node reached from the root by following the bytes of `w`.
pub open spec fn path_node(nodes: Seq<TrieNode>, w: Seq<u8>) -> Option<int>
    decreases w.len(),
{
    if w.len() == 0 {
        Some(0)
    } else {
        match path_node(nodes, w.drop_last()) {
            Some(n) => if 0 <= n < nodes.len() {
                match child_of(nodes[n].children, w.last()) {
                    Some(c) => Some(c as int),
                    None => None,
                }
            } else {
                None
            },
            None => None,
        }
    }
}

/// The value stored for the word `w`, if `w` was added.
pub open spec fn lookup(nodes: Seq<TrieNode>, w: Seq<u8>) -> Option<u16> {
    match path_node(nodes, w) {
        Some(n) => if 0 <= n < nodes.len() { nodes[n].value } else { None },
        None => None,
    }
}

pub open spec fn nodes_wf(nodes: Seq<TrieNode>) -> bool {
    &&& nodes.len() >= 1
    &&& forall|n: int| 0 <= n < nodes.len() ==> children_wf(#[trigger] nodes[n].children)
    &&& forall|n: int, sym: u8| 0 <= n < nodes.len() && (#[trigger] child_of(nodes[n].children, sym)) is Some
            ==> (child_of(nodes[n].children, sym)->0 as int) < nodes.len()
}

/// The map a trie stores: each added word and its value.
pub open spec fn nodes_map(nodes: Seq<TrieNode>) -> Map<Seq<u8>, u16> {
    Map::new(|w: Seq<u8>| lookup(nodes, w) is Some, |w: Seq<u8>| lookup(nodes, w)->0)
}

/// `m[w]` as an option.
pub open spec fn map_get(m: Map<Seq<u8>, u16>, w: Seq<u8>) -> Option<u16> {
    if m.dom().contains(w) { Some(m[w]) } else { None }
}

/// The value of the longest prefix of `d` that is a key of `m`.
pub open spec fn longest_prefix_value(m: Map<Seq<u8>, u16>, d: Seq<u8>) -> Option<u16>
    decreases d.len(),
{
    if m.dom().contains(d) {
        Some(m[d])
    } else if d.len() == 0 {
        None
    } else {
        longest_prefix_value(m, d.drop_last())
    }
}

/// A compiled set of byte strings, each with a `u16` value.
pub struct Trie {
    nodes: Vec<TrieNode>,
}

impl Trie {
    #[verifier::type_invariant]
    spec fn inv(self) -> bool {
        nodes_wf(self.nodes@)
    }

    /// The words of this trie and their values.
    pub closed spec fn view(&self) -> Map<Seq<u8>, u16> {
        nodes_map(self.nodes@)
    }
}

/// Once a path leaves the trie, no extension of it comes back in.
proof fn lemma_path_node_extend_none(nodes: Seq<TrieNode>, d: Seq<u8>, i: int, j: int)
    requires
        0 <= i <= j <= d.len(),
        path_node(nodes, d.take(i)) is None,
    ensures
        path_node(nodes, d.take(j)) is None,
    decreases j - i,
{
    if j > i {
        lemma_path_node_extend_none(nodes, d, i, j - 1);
        assert(d.take(j).drop_last() == d.take(j - 1));
    }
}

/// When no prefix of `d` longer than `d[..i]` lies in the trie, the longest
/// stored prefix of `d` is that of `d[..i]`.
proof fn lemma_lpv_stop(nodes: Seq<TrieNode>, d: Seq<u8>, i: int, j: int)
    requires
        0 <= i < j <= d.len(),
        path_node(nodes, d.take(i + 1)) is None,
    ensures
        longest_prefix_value(nodes_map(nodes), d.take(j)) == longest_prefix_value(nodes_map(nodes), d.take(i)),
    decreases j - i,
{
    lemma_path_node_extend_none(nodes, d, i + 1, j);
    assert(!nodes_map(nodes).dom().contains(d.take(j)));
    assert(d.take(j).drop_last() == d.take(j - 1));
    if j - 1 > i {
        lemma_lpv_stop(nodes, d, i, j - 1);
    }
}

impl Trie {
    /// The value of the longest added word that is a prefix of `data`
    /// (the root's value if the empty word was added).
    pub fn scan(&self, data: &[u8]) -> (r: Option<u16>)
        ensures
            r == longest_prefix_value(self@, data@),
    {
        proof { use_type_invariant(self); }
        let ghost m = nodes_map(self.nodes@);
        let mut current_index: usize = 0;
        let mut current_value = self.nodes[0].value;
        let mut i: usize = 0;
        proof {
            assert(data@.take(0) == Seq::<u8>::empty());
            assert(lookup(self.nodes@, data@.take(0)) == self.nodes@[0].value);
        }
        while i < data.len()
            invariant
                nodes_wf(self.nodes@),
                m == nodes_map(self.nodes@),
                i <= data@.len(),
                current_index < self.nodes@.len(),
                path_node(self.nodes@, data@.take(i as int)) == Some(current_index as int),
                current_value == longest_prefix_value(m, data@.take(i as int)),
            decreases data@.len() - i,
        {
            let symbol = data[i];
            assert(data@.take(i + 1).drop_last() == data@.take(i as int));
            assert(data@.take(i + 1).last() == symbol);
            match self.nodes[current_index].children.find(symbol) {
                Some(next) => {
                    current_index = next as usize;
                    i = i + 1;
                    if let Some(v) = self.nodes[current_index].value {
                        current_value = Some(v);
                    }
                },
                None => {
                    proof {
                        lemma_lpv_stop(self.nodes@, data@, i as int, data@.len() as int);
                        assert(data@.take(data@.len() as int) == data@);
                    }
                    return current_value;
                },
            }
        }
        assert(data@.take(data@.len() as int) == data@);
        current_value
    }

    /// Same as [`scan`](Self::scan): the value of the longest added word
    /// that is a prefix of `data`.
    pub fn starts_with(&self, data: &[u8]) -> (r: Option<u16>)
        ensures
            r == longest_prefix_value(self@, data@),
    {
        self.scan(data)
    }

    /// The value of `data` if it was added as a whole word.
    pub fn matches_exactly(&self, data: &[u8]) -> (r: Option<u16>)
        ensures
            r == map_get(self@, data@),
    {
        proof { use_type_invariant(self); }
        let mut current_index: usize = 0;
        let mut i: usize = 0;
        proof { assert(data@.take(0) == Seq::<u8>::empty()); }
        while i < data.len()
            invariant
                nodes_wf(self.nodes@),
                i <= data@.len(),
                current_index < self.nodes@.len(),
                path_node(self.nodes@, data@.take(i as int)) == Some(current_index as int),
            decreases data@.len() - i,
        {
            let symbol = data[i];
            assert(data@.take(i + 1).drop_last() == data@.take(i as int));
            assert(data@.take(i + 1).last() == symbol);
            match self.nodes[current_index].children.find(symbol) {
                Some(next) => {
                    current_index = next as usize;
                    i = i + 1;
                },
                None => {
                    proof {
                        lemma_path_node_extend_none(self.nodes@, data@, i + 1, data@.len() as int);
                        assert(data@.take(data@.len() as int) == data@);
                    }
                    return None;
                },
            }
        }
        assert(data@.take(data@.len() as int) == data@);
        self.nodes[current_index].value
    }
}

} // verus!

verus! {

/// The map a list of `(word, value)` additions builds: a later addition of
/// the same word replaces the earlier value.
pub open spec fn words_map(ws: Seq<(Seq<u8>, u16)>) -> Map<Seq<u8>, u16>
    decreases ws.len(),
{
    if ws.len() == 0 {
        Map::empty()
    } else {
        words_map(ws.drop_last()).insert(ws.last().0, ws.last().1)
    }
}

/// The last addition of a word decides the value the word maps to.
pub proof fn lemma_last_addition_wins(ws: Seq<(Seq<u8>, u16)>, w: Seq<u8>, v: u16)
    ensures
        words_map(ws.push((w, v))).dom().contains(w),
        words_map(ws.push((w, v)))[w] == v,
{
    assert(ws.push((w, v)).drop_last() == ws);
}

/// A word that matches exactly is its own longest matching prefix.
pub proof fn lemma_exact_match_is_prefix_match(m: Map<Seq<u8>, u16>, d: Seq<u8>)
    ensures
        map_get(m, d) is Some ==> longest_prefix_value(m, d) == map_get(m, d),
{
}

/// A prefix match is the value of a stored prefix of the input, and no
/// longer prefix of the input is stored; no match means no prefix (the
/// empty one included) is stored.
pub proof fn lemma_prefix_match_is_longest(m: Map<Seq<u8>, u16>, d: Seq<u8>)
    ensures
        match longest_prefix_value(m, d) {
            Some(v) => exists|k: int| 0 <= k <= d.len() && #[trigger] m.dom().contains(d.take(k)) && m[d.take(k)] == v
                && forall|j: int| k < j <= d.len() ==> !m.dom().contains(#[trigger] d.take(j)),
            None => forall|j: int| 0 <= j <= d.len() ==> !m.dom().contains(#[trigger] d.take(j)),
        },
    decreases d.len(),
{
    if m.dom().contains(d) {
        assert(d.take(d.len() as int) == d);
    } else if d.len() == 0 {
        assert(d.take(0) == d);
    } else {
        let e = d.drop_last();
        lemma_prefix_match_is_longest(m, e);
        assert(d.take(d.len() as int) == d);
        assert forall|j: int| 0 <= j <= e.len() implies #[trigger] e.take(j) == d.take(j) by {
            assert(e.take(j) =~= d.take(j));
        }
        match longest_prefix_value(m, e) {
            Some(v) => {
                let k = choose|k: int| 0 <= k <= e.len() && #[trigger] m.dom().contains(e.take(k)) && m[e.take(k)] == v
                    && forall|j: int| k < j <= e.len() ==> !m.dom().contains(#[trigger] e.take(j));
                assert(e.take(k) == d.take(k));
                assert forall|j: int| k < j <= d.len() implies !m.dom().contains(#[trigger] d.take(j)) by {
                    if j <= e.len() {
                        assert(e.take(j) == d.take(j));
                    }
                }
            },
            None => {
                assert forall|j: int| 0 <= j <= d.len() implies !m.dom().contains(#[trigger] d.take(j)) by {
                    if j <= e.len() {
                        assert(e.take(j) == d.take(j));
                    }
                }
            },
        }
    }
}

/// `acc` extended, in order, by the prefixes `w.take(j + 1)`,
/// `w.take(j + 2)`, ... of `w` that it does not hold yet.
pub open spec fn add_prefixes(acc: Seq<Seq<u8>>, w: Seq<u8>, j: int) -> Seq<Seq<u8>>
    decreases w.len() - j,
{
    if j < 0 || j >= w.len() {
        acc
    } else {
        add_prefixes(if acc.contains(w.take(j + 1)) { acc } else { acc.push(w.take(j + 1)) }, w, j + 1)
    }
}

/// The distinct prefixes of the words, the empty one first, in the order
/// they first occur: one trie node each.
pub open spec fn prefix_list(ws: Seq<(Seq<u8>, u16)>) -> Seq<Seq<u8>>
    decreases ws.len(),
{
    if ws.len() == 0 {
        seq![Seq::<u8>::empty()]
    } else {
        add_prefixes(prefix_list(ws.drop_last()), ws.last().0, 0)
    }
}

/// How many nodes the trie of `ws` has.
pub open spec fn node_count(ws: Seq<(Seq<u8>, u16)>) -> int {
    prefix_list(ws).len() as int
}

proof fn lemma_add_prefixes_grows(acc: Seq<Seq<u8>>, w: Seq<u8>, j: int)
    ensures
        add_prefixes(acc, w, j).len() >= acc.len(),
        0 <= j < w.len() && !acc.contains(w.take(j + 1)) ==> add_prefixes(acc, w, j).len() >= acc.len() + 1,
    decreases w.len() - j,
{
    if 0 <= j < w.len() {
        let next = if acc.contains(w.take(j + 1)) { acc } else { acc.push(w.take(j + 1)) };
        lemma_add_prefixes_grows(next, w, j + 1);
    }
}

proof fn lemma_prefix_list_mono(ws: Seq<(Seq<u8>, u16)>, k: int)
    requires
        0 <= k <= ws.len(),
    ensures
        prefix_list(ws.take(k)).len() <= prefix_list(ws).len(),
    decreases ws.len() - k,
{
    if k < ws.len() {
        lemma_prefix_list_mono(ws, k + 1);
        assert(ws.take(k + 1).drop_last() == ws.take(k));
        lemma_add_prefixes_grows(prefix_list(ws.take(k)), ws.take(k + 1).last().0, 0);
    } else {
        assert(ws.take(k) == ws);
    }
}

struct Word {
    data: &'static [u8],
    value: u16,
}

/// Collects words and their values, then compiles them into a [`Trie`].
pub struct TrieBuilder {
    words: Vec<Word>,
}

/// Each node is reached by exactly the word recorded for it in `paths`.
spec fn paths_inv(nodes: Seq<TrieNode>, paths: Seq<Seq<u8>>) -> bool {
    &&& paths.len() == nodes.len()
    &&& paths.len() >= 1
    &&& paths[0] == Seq::<u8>::empty()
    &&& forall|n: int| 0 <= n < nodes.len() ==> path_node(nodes, #[trigger] paths[n]) == Some(n)
    &&& forall|n: int, sym: u8| 0 <= n < nodes.len() && (#[trigger] child_of(nodes[n].children, sym)) is Some
            ==> paths[child_of(nodes[n].children, sym)->0 as int] == paths[n].push(sym)
}

proof fn lemma_path_unique(nodes: Seq<TrieNode>, paths: Seq<Seq<u8>>, w: Seq<u8>)
    requires
        nodes_wf(nodes),
        paths_inv(nodes, paths),
        path_node(nodes, w) is Some,
    ensures
        0 <= path_node(nodes, w)->0 < nodes.len(),
        paths[path_node(nodes, w)->0] == w,
    decreases w.len(),
{
    if w.len() == 0 {
    } else {
        let p = w.drop_last();
        lemma_path_unique(nodes, paths, p);
        let m = path_node(nodes, p)->0;
        assert(child_of(nodes[m].children, w.last()) is Some);
        assert(p.push(w.last()) == w);
    }
}

proof fn lemma_same_children(a: Seq<TrieNode>, b: Seq<TrieNode>, w: Seq<u8>)
    requires
        a.len() == b.len(),
        forall|n: int| 0 <= n < a.len() ==> #[trigger] a[n].children == b[n].children,
    ensures
        path_node(a, w) == path_node(b, w),
    decreases w.len(),
{
    if w.len() > 0 {
        lemma_same_children(a, b, w.drop_last());
    }
}

/// `new` is `old` with a fresh childless node appended and an edge over
/// `s` from `cur` to it.
spec fn extends(old: Seq<TrieNode>, new: Seq<TrieNode>, cur: int, s: u8) -> bool {
    &&& new.len() == old.len() + 1
    &&& 0 <= cur < old.len()
    &&& new[old.len() as int].children == TrieChildren::Empty
    &&& new[old.len() as int].value is None
    &&& forall|n: int| 0 <= n < old.len() && n != cur ==> #[trigger] new[n] == old[n]
    &&& new[cur].value == old[cur].value
    &&& child_of(old[cur].children, s) is None
    &&& forall|sym: u8| #[trigger] child_of(new[cur].children, sym)
            == if sym == s { Some(old.len() as u16) } else { child_of(old[cur].children, sym) }
}

proof fn lemma_extend_keeps(old: Seq<TrieNode>, new: Seq<TrieNode>, cur: int, s: u8, w: Seq<u8>)
    requires
        nodes_wf(old),
        old.len() < 65536,
        extends(old, new, cur, s),
    ensures
        path_node(old, w) is Some ==> path_node(new, w) == path_node(old, w),
        (path_node(new, w) is Some && path_node(new, w)->0 < old.len()) ==> path_node(old, w) == path_node(new, w),
        path_node(new, w) is Some ==> path_node(new, w)->0 <= old.len(),
    decreases w.len(),
{
    if w.len() > 0 {
        let p = w.drop_last();
        lemma_extend_keeps(old, new, cur, s, p);
        assert(child_of(new[old.len() as int].children, w.last()) is None);
        match path_node(new, p) {
            Some(m) => {
                if m < old.len() {
                    if m != cur {
                        assert(new[m] == old[m]);
                    }
                }
            },
            None => {},
        }
    }
}

proof fn lemma_extend_lookup(old: Seq<TrieNode>, new: Seq<TrieNode>, cur: int, s: u8)
    requires
        nodes_wf(old),
        old.len() < 65536,
        extends(old, new, cur, s),
    ensures
        nodes_map(new) == nodes_map(old),
{
    assert forall|w: Seq<u8>| #[trigger] lookup(new, w) == lookup(old, w) by {
        lemma_extend_keeps(old, new, cur, s, w);
        match path_node(new, w) {
            Some(n) => {
                if n < old.len() {
                    if n != cur {
                        assert(new[n] == old[n]);
                    }
                }
            },
            None => {},
        }
    }
    assert(nodes_map(new) =~= nodes_map(old));
}

impl TrieBuilder {
    /// The words added so far, in order, with their values.
    pub closed spec fn view(&self) -> Seq<(Seq<u8>, u16)> {
        self.words@.map_values(|w: Word| (w.data@, w.value))
    }

    pub fn new() -> (r: Self)
        ensures
            r@ == Seq::<(Seq<u8>, u16)>::empty(),
    {
        let r = Self { words: Vec::new() };
        assert(r@ =~= Seq::<(Seq<u8>, u16)>::empty());
        r
    }

    /// Records `data` with `value`; a later word equal to an earlier one
    /// replaces its value.
    pub fn add(&mut self, data: &'static [u8], value: u16)
        ensures
            final(self)@ == old(self)@.push((data@, value)),
    {
        self.words.push(Word { data, value });
        assert(final(self)@ =~= old(self)@.push((data@, value)));
    }

    /// Compiles the words into a trie that maps each added word to the
    /// value it was last added with. The trie needs one node per distinct
    /// prefix of the words (the empty one included), and at most 65536 of
    /// them.
    pub fn build(self) -> (t: Trie)
        requires
            node_count(self@) <= 65536,
        ensures
            t@ == words_map(self@),
    {
        match self.try_build() {
            Some(t) => t,
            None => Trie { nodes: vec![TrieNode { children: TrieChildren::Empty, value: None }] },
        }
    }

    /// As [`build`](Self::build); `None` when the words need more than
    /// 65536 nodes.
    #[verifier::rlimit(50)]
    pub fn try_build(self) -> (r: Option<Trie>)
        ensures
            r is Some <==> node_count(self@) <= 65536,
            r matches Some(t) ==> t@ == words_map(self@),
    {
        let ghost ws = self@;
        let mut nodes: Vec<TrieNode> = Vec::new();
        nodes.push(TrieNode { children: TrieChildren::Empty, value: None });
        let ghost mut paths: Seq<Seq<u8>> = seq![Seq::<u8>::empty()];
        proof {
            assert(child_of(nodes@[0].children, 0u8) is None);
            assert(paths_inv(nodes@, paths));
            assert forall|w: Seq<u8>| #[trigger] lookup(nodes@, w) is None by {
                if path_node(nodes@, w) is Some {
                    lemma_path_unique(nodes@, paths, w);
                    assert(path_node(nodes@, w)->0 == 0);
                }
            }
            assert(nodes_map(nodes@) =~= words_map(ws.take(0)));
            assert(ws.take(0) == Seq::<(Seq<u8>, u16)>::empty());
        }
        let mut k: usize = 0;
        while k < self.words.len()
            invariant
                ws == self@,
                0 <= k <= ws.len(),
                nodes_wf(nodes@),
                paths_inv(nodes@, paths),
                nodes_map(nodes@) == words_map(ws.take(k as int)),
                paths == prefix_list(ws.take(k as int)),
                nodes@.len() <= 65536,
            decreases ws.len() - k,
        {
            let word = &self.words[k];
            let ghost wd = word.data@;
            assert(ws[k as int] == (wd, word.value));
            assert(ws.take(k + 1).drop_last() == ws.take(k as int));
            let mut current: usize = 0;
            let mut j: usize = 0;
            proof { assert(wd.take(0) == Seq::<u8>::empty()); }
            while j < word.data.len()
                invariant
                    ws == self@,
                    0 <= k < ws.len(),
                    wd == word.data@,
                    ws[k as int] == (wd, word.value),
                    j <= wd.len(),
                    nodes_wf(nodes@),
                    paths_inv(nodes@, paths),
                    nodes_map(nodes@) == words_map(ws.take(k as int)),
                    add_prefixes(paths, wd, j as int) == prefix_list(ws.take(k + 1)),
                    nodes@.len() <= 65536,
                    current < nodes@.len(),
                    path_node(nodes@, wd.take(j as int)) == Some(current as int),
                decreases wd.len() - j,
            {
                let symbol = word.data[j];
                assert(wd.take(j + 1).drop_last() == wd.take(j as int));
                assert(wd.take(j + 1).last() == symbol);
                match nodes[current].children.find(symbol) {
                    Some(next) => {
                        proof {
                            lemma_path_unique(nodes@, paths, wd.take(j + 1));
                            assert(paths.contains(wd.take(j + 1)));
                        }
                        current = next as usize;
                    },
                    None => {
                        proof {
                            if paths.contains(wd.take(j + 1)) {
                                let n = choose|n: int| 0 <= n < paths.len() && paths[n] == wd.take(j + 1);
                                assert(path_node(nodes@, paths[n]) == Some(n));
                                assert(false);
                            }
                            lemma_add_prefixes_grows(paths, wd, j as int);
                            lemma_prefix_list_mono(ws, k + 1);
                        }
                        let new_index = nodes.len();
                        if new_index > 65535 {
                            return None;
                        }
                        let ghost old_nodes = nodes@;
                        nodes.push(TrieNode { children: TrieChildren::Empty, value: None });
                        nodes[current].children.insert(symbol, new_index as u16);
                        proof {
                            assert(extends(old_nodes, nodes@, current as int, symbol));
                            lemma_extend_step(old_nodes, nodes@, paths, current as int, symbol, wd, j as int);
                            paths = paths.push(wd.take(j + 1));
                        }
                        current = new_index;
                    },
                }
                j = j + 1;
            }
            assert(wd.take(wd.len() as int) == wd);
            let ghost before = nodes@;
            nodes[current].value = Some(word.value);
            proof {
                lemma_set_value(before, nodes@, paths, current as int, wd, word.value);
            }
            k = k + 1;
        }
        assert(ws.take(ws.len() as int) == ws);
        Some(Trie { nodes })
    }
}

proof fn lemma_extend_step(
    old_nodes: Seq<TrieNode>,
    nodes: Seq<TrieNode>,
    paths: Seq<Seq<u8>>,
    current: int,
    symbol: u8,
    wd: Seq<u8>,
    j: int,
)
    requires
        nodes_wf(old_nodes),
        paths_inv(old_nodes, paths),
        old_nodes.len() < 65536,
        extends(old_nodes, nodes, current, symbol),
        0 <= j < wd.len(),
        wd[j] == symbol,
        path_node(old_nodes, wd.take(j)) == Some(current),
        children_wf(nodes[current].children),
    ensures
        nodes_wf(nodes),
        paths_inv(nodes, paths.push(wd.take(j + 1))),
        nodes_map(nodes) == nodes_map(old_nodes),
        path_node(nodes, wd.take(j + 1)) == Some(old_nodes.len() as int),
{
    lemma_extend_lookup(old_nodes, nodes, current, symbol);
    lemma_path_unique(old_nodes, paths, wd.take(j));
    assert(wd.take(j + 1).drop_last() == wd.take(j));
    assert(wd.take(j + 1).last() == symbol);
    let new_paths = paths.push(wd.take(j + 1));
    assert(new_paths[old_nodes.len() as int] == paths[current].push(symbol));
    assert forall|n: int| 0 <= n < nodes.len() implies children_wf(#[trigger] nodes[n].children) by {
        if n < old_nodes.len() && n != current { assert(nodes[n] == old_nodes[n]); }
    }
    assert forall|n: int, sym: u8| 0 <= n < nodes.len() && (#[trigger] child_of(nodes[n].children, sym)) is Some
        implies (child_of(nodes[n].children, sym)->0 as int) < nodes.len()
            && new_paths[child_of(nodes[n].children, sym)->0 as int] == new_paths[n].push(sym) by {
        if n == old_nodes.len() {
            assert(child_of(TrieChildren::Empty, sym) is None);
        } else if n != current {
            assert(nodes[n] == old_nodes[n]);
        }
    }
    lemma_extend_keeps(old_nodes, nodes, current, symbol, wd.take(j));
    assert forall|n: int| 0 <= n < nodes.len() implies path_node(nodes, #[trigger] new_paths[n]) == Some(n) by {
        if n < old_nodes.len() {
            lemma_extend_keeps(old_nodes, nodes, current, symbol, paths[n]);
        }
    }
}

proof fn lemma_set_value(
    before: Seq<TrieNode>,
    nodes: Seq<TrieNode>,
    paths: Seq<Seq<u8>>,
    current: int,
    wd: Seq<u8>,
    v: u16,
)
    requires
        nodes_wf(before),
        paths_inv(before, paths),
        0 <= current < before.len(),
        path_node(before, wd) == Some(current),
        nodes == before.update(current, TrieNode { children: before[current].children, value: Some(v) }),
    ensures
        nodes_wf(nodes),
        paths_inv(nodes, paths),
        nodes_map(nodes) == nodes_map(before).insert(wd, v),
{
    assert forall|n: int| 0 <= n < before.len() implies #[trigger] nodes[n].children == before[n].children by {}
    assert forall|w: Seq<u8>| #[trigger] path_node(nodes, w) == path_node(before, w) by {
        lemma_same_children(nodes, before, w);
    }
    assert forall|w: Seq<u8>| #[trigger] lookup(nodes, w)
        == if w == wd { Some(v) } else { lookup(before, w) } by {
        if path_node(before, w) is Some {
            lemma_path_unique(before, paths, w);
            lemma_path_unique(before, paths, wd);
        }
    }
    assert(nodes_map(nodes) =~= nodes_map(before).insert(wd, v));
    assert forall|n: int| 0 <= n < nodes.len() implies path_node(nodes, #[trigger] paths[n]) == Some(n) by {
        assert(path_node(nodes, paths[n]) == path_node(before, paths[n]));
    }
}

} // verus!
