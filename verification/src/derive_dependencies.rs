//! The `#[Dependencies(name = "...", requires = ...)]` attribute of an
//! analyzer type, read from the type's token trees.
//!
//! A derive receives the item it is attached to as a stream of token
//! trees. [`TokenForest`] holds such a stream as plain values: every token
//! is a [`Node`] of an arena, a group lists the arena positions of its
//! inner tokens, and the item itself is the list of top-level positions.
//! Errors and results name tokens by their arena position, so the caller
//! can quote them back.
use vstd::prelude::*;
use crate::utils::bytes_equal;

verus! {

/// How a group of tokens is delimited.
#[derive(Clone, Copy, Debug, PartialEq, Eq, Structural)]
pub enum Delimiter {
    /// `( ... )`
    Parenthesis,
    /// `{ ... }`
    Brace,
    /// `[ ... ]`
    Bracket,
    /// An invisible delimiter.
    NoDelimiter,
}

/// One token tree.
#[derive(Debug)]
pub enum Node {
    /// A delimited group; the arena positions of its inner tokens, in order.
    Group(Delimiter, Vec<usize>),
    /// An identifier, by its text.
    Ident(Vec<u8>),
    /// A single punctuation character.
    Punct(char),
    /// A literal, by its source text (a string literal keeps its quotes).
    Literal(Vec<u8>),
}

/// Which attribute parameter a string literal was expected for.
#[derive(Clone, Copy, Debug, PartialEq, Eq, Structural)]
pub enum AttrParam {
    Name,
    Requires,
}

/// Why the attribute or the item it is attached to was refused. Positions
/// are arena positions of the offending token.
#[derive(Clone, Copy, Debug, PartialEq, Eq, Structural)]
pub enum DeriveError {
    /// More than one `#[Dependencies(...)]` attribute.
    MultipleAttributes,
    /// The item is not a `struct`, `enum` or `union`; the identifier found.
    NotAType(usize),
    /// No identifier after the type keyword.
    ExpectedTypeName,
    /// The type has generic parameters.
    GenericType,
    /// No `#[Dependencies(...)]` attribute.
    MissingAttribute,
    /// `name = ""`.
    EmptyName,
    /// The attribute has no `name` parameter.
    MissingName,
    /// `Dependencies` is not followed by a parenthesized group.
    ExpectedAttributeBody,
    /// Tokens follow `Dependencies(...)` inside the brackets.
    TrailingTokens,
    /// A parameter does not start with an identifier; the token found.
    ExpectedParameterName(usize),
    /// No `=` after the parameter name; the name's token.
    ExpectedEquals(usize),
    /// Nothing after `=`; the parameter name's token.
    ExpectedValue(usize),
    /// `name` given twice.
    DuplicateName,
    /// `requires` given twice.
    DuplicateRequires,
    /// A parameter other than `name` and `requires`; its token.
    UnknownParameter(usize),
    /// `requires` is neither a literal nor a bracketed list; the token found.
    RequiresNotStringOrList(usize),
    /// A value that should be a string literal is not; the token found.
    NotStringLiteral(AttrParam, usize),
}

/// What a `#[Dependencies(...)]` attribute says: the `name` literal, if
/// given, and the `requires` literals, in order (arena positions).
pub struct ParsedAttr {
    pub name: Option<usize>,
    pub required: Vec<usize>,
}

impl ParsedAttr {
    pub open spec fn view(&self) -> (Option<usize>, Seq<usize>) {
        (self.name, self.required@)
    }
}

/// What the derive emits: `Dependencies` for the type named by the token
/// at `type_token`, with the name literal at `name` and the required-name
/// literals at `requires`.
pub struct DependenciesImpl {
    pub type_token: usize,
    pub name: usize,
    pub required: Vec<usize>,
}

/// `"`
pub open spec fn quote() -> u8 {
    34u8
}

pub open spec fn word_dependencies() -> Seq<u8> {
    seq![68u8, 101, 112, 101, 110, 100, 101, 110, 99, 105, 101, 115]
}

pub open spec fn word_name() -> Seq<u8> {
    seq![110u8, 97, 109, 101]
}

pub open spec fn word_requires() -> Seq<u8> {
    seq![114u8, 101, 113, 117, 105, 114, 101, 115]
}

pub open spec fn word_pub() -> Seq<u8> {
    seq![112u8, 117, 98]
}

/// `struct`, `enum` or `union`.
pub open spec fn is_type_keyword(w: Seq<u8>) -> bool {
    ||| w == seq![115u8, 116, 114, 117, 99, 116]
    ||| w == seq![101u8, 110, 117, 109]
    ||| w == seq![117u8, 110, 105, 111, 110]
}

pub open spec fn is_punct(n: Seq<Node>, k: usize, c: char) -> bool {
    n[k as int] matches Node::Punct(p) && p == c
}

pub open spec fn is_ident(n: Seq<Node>, k: usize, w: Seq<u8>) -> bool {
    n[k as int] matches Node::Ident(v) && v@ == w
}

/// The inner tokens of the token at `k` when it is a group delimited by `d`.
pub open spec fn group_of(n: Seq<Node>, k: usize, d: Delimiter) -> Option<Seq<usize>> {
    match n[k as int] {
        Node::Group(dd, c) => if dd == d { Some(c@) } else { None },
        _ => None,
    }
}

/// A double-quoted literal: at least two bytes, a quote at each end.
pub open spec fn is_string_literal(s: Seq<u8>) -> bool {
    s.len() >= 2 && s[0] == quote() && s.last() == quote()
}

/// The token at `k` is a string literal, or the error for `param`.
pub open spec fn str_literal(n: Seq<Node>, k: usize, param: AttrParam) -> Result<usize, DeriveError> {
    match n[k as int] {
        Node::Literal(s) => if is_string_literal(s@) { Ok(k) } else { Err(DeriveError::NotStringLiteral(param, k)) },
        _ => Err(DeriveError::NotStringLiteral(param, k)),
    }
}

/// The string literals of `items[j..]` (commas skipped), after `acc`.
pub open spec fn literal_list(n: Seq<Node>, items: Seq<usize>, j: int, acc: Seq<usize>) -> Result<Seq<usize>, DeriveError>
    decreases items.len() - j,
{
    if j >= items.len() || j < 0 {
        Ok(acc)
    } else if is_punct(n, items[j], ',') {
        literal_list(n, items, j + 1, acc)
    } else {
        match str_literal(n, items[j], AttrParam::Requires) {
            Ok(k) => literal_list(n, items, j + 1, acc.push(k)),
            Err(e) => Err(e),
        }
    }
}

/// The value of `requires`: one string literal, or a bracketed list of them.
pub open spec fn requires_value(n: Seq<Node>, k: usize) -> Result<Seq<usize>, DeriveError> {
    match n[k as int] {
        Node::Literal(_) => match str_literal(n, k, AttrParam::Requires) {
            Ok(x) => Ok(seq![x]),
            Err(e) => Err(e),
        },
        Node::Group(d, items) => if d == Delimiter::Bracket {
            literal_list(n, items@, 0, Seq::empty())
        } else {
            Err(DeriveError::RequiresNotStringOrList(k))
        },
        _ => Err(DeriveError::RequiresNotStringOrList(k)),
    }
}

/// The parameters `toks[i..]` of the attribute body, read after `name`
/// and `requires` so far.
pub open spec fn body_from(
    n: Seq<Node>,
    toks: Seq<usize>,
    i: int,
    name: Option<usize>,
    required: Option<Seq<usize>>,
) -> Result<(Option<usize>, Seq<usize>), DeriveError>
    decreases toks.len() - i,
{
    if i >= toks.len() || i < 0 {
        Ok((name, match required { Some(r) => r, None => Seq::empty() }))
    } else if is_punct(n, toks[i], ',') {
        body_from(n, toks, i + 1, name, required)
    } else {
        match n[toks[i] as int] {
            Node::Ident(key) => {
                if !(i + 1 < toks.len() && is_punct(n, toks[i + 1], '=')) {
                    Err(DeriveError::ExpectedEquals(toks[i]))
                } else if i + 2 >= toks.len() {
                    Err(DeriveError::ExpectedValue(toks[i]))
                } else if key@ == word_name() {
                    if name is Some {
                        Err(DeriveError::DuplicateName)
                    } else {
                        match str_literal(n, toks[i + 2], AttrParam::Name) {
                            Ok(k) => body_from(n, toks, i + 3, Some(k), required),
                            Err(e) => Err(e),
                        }
                    }
                } else if key@ == word_requires() {
                    if required is Some {
                        Err(DeriveError::DuplicateRequires)
                    } else {
                        match requires_value(n, toks[i + 2]) {
                            Ok(l) => body_from(n, toks, i + 3, name, Some(l)),
                            Err(e) => Err(e),
                        }
                    }
                } else {
                    Err(DeriveError::UnknownParameter(toks[i]))
                }
            },
            _ => Err(DeriveError::ExpectedParameterName(toks[i])),
        }
    }
}

/// The contents of one `#[...]` attribute: `None` when it is not
/// `Dependencies(...)`.
pub open spec fn attribute(n: Seq<Node>, toks: Seq<usize>) -> Result<Option<(Option<usize>, Seq<usize>)>, DeriveError> {
    if toks.len() == 0 || !is_ident(n, toks[0], word_dependencies()) {
        Ok(None)
    } else {
        match if toks.len() >= 2 { group_of(n, toks[1], Delimiter::Parenthesis) } else { None } {
            None => Err(DeriveError::ExpectedAttributeBody),
            Some(body) => if toks.len() > 2 {
                Err(DeriveError::TrailingTokens)
            } else {
                match body_from(n, body, 0, None, None) {
                    Ok(p) => Ok(Some(p)),
                    Err(e) => Err(e),
                }
            },
        }
    }
}

/// The item's tokens `toks[i..]` up to and including the type keyword,
/// with the attribute found so far: where the type name should stand, and
/// the attribute.
pub open spec fn header_from(
    n: Seq<Node>,
    toks: Seq<usize>,
    i: int,
    attr: Option<(Option<usize>, Seq<usize>)>,
) -> Result<(int, Option<(Option<usize>, Seq<usize>)>), DeriveError>
    decreases toks.len() - i,
{
    if i >= toks.len() || i < 0 {
        Ok((i, attr))
    } else {
        match n[toks[i] as int] {
            Node::Punct(c) => {
                if c == '#' && i + 1 < toks.len() && group_of(n, toks[i + 1], Delimiter::Bracket) is Some {
                    match attribute(n, group_of(n, toks[i + 1], Delimiter::Bracket).unwrap()) {
                        Err(e) => Err(e),
                        Ok(None) => header_from(n, toks, i + 2, attr),
                        Ok(Some(p)) => if attr is Some {
                            Err(DeriveError::MultipleAttributes)
                        } else {
                            header_from(n, toks, i + 2, Some(p))
                        },
                    }
                } else {
                    header_from(n, toks, i + 1, attr)
                }
            },
            Node::Ident(id) => {
                if id@ == word_pub() {
                    if i + 1 < toks.len() && group_of(n, toks[i + 1], Delimiter::Parenthesis) is Some {
                        header_from(n, toks, i + 2, attr)
                    } else {
                        header_from(n, toks, i + 1, attr)
                    }
                } else if is_type_keyword(id@) {
                    Ok((i + 1, attr))
                } else {
                    Err(DeriveError::NotAType(toks[i]))
                }
            },
            _ => header_from(n, toks, i + 1, attr),
        }
    }
}

/// The literal `""`.
pub open spec fn is_empty_literal(s: Seq<u8>) -> bool {
    s == seq![quote(), quote()]
}

/// What deriving `Dependencies` for the item `toks` gives: the type name's
/// token, the name literal and the required literals.
pub open spec fn derived(n: Seq<Node>, toks: Seq<usize>) -> Result<(usize, usize, Seq<usize>), DeriveError> {
    match header_from(n, toks, 0, None) {
        Err(e) => Err(e),
        Ok((i, attr)) => {
            if !(0 <= i < toks.len() && n[toks[i] as int] is Ident) {
                Err(DeriveError::ExpectedTypeName)
            } else if i + 1 < toks.len() && is_punct(n, toks[i + 1], '<') {
                Err(DeriveError::GenericType)
            } else {
                match attr {
                    None => Err(DeriveError::MissingAttribute),
                    Some((name, required)) => match name {
                        None => Err(DeriveError::MissingName),
                        Some(k) => if n[k as int] matches Node::Literal(s) && is_empty_literal(s@) {
                            Err(DeriveError::EmptyName)
                        } else {
                            Ok((toks[i], k, required))
                        },
                    },
                }
            }
        },
    }
}

/// Deriving succeeds only for a type that is not generic and carries one
/// `Dependencies` attribute with a non-empty `name`: the derived name and
/// requirements are that attribute's, the type token is the one after the
/// type keyword; and an item without the attribute, or whose attribute has
/// no `name` or an empty one, or a generic type, is refused.
pub proof fn lemma_derive_refusals(n: Seq<Node>, toks: Seq<usize>)
    ensures
        derived(n, toks) matches Ok((ty, name, req)) ==> {
            &&& header_from(n, toks, 0, None) is Ok
            &&& ({
                let (i, attr) = header_from(n, toks, 0, None)->Ok_0;
                &&& 0 <= i < toks.len() && toks[i] == ty
                &&& !(i + 1 < toks.len() && is_punct(n, toks[i + 1], '<'))
                &&& attr == Some((Some(name), req))
                &&& !(n[name as int] matches Node::Literal(s) && is_empty_literal(s@))
            })
        },
        header_from(n, toks, 0, None) is Ok ==> ({
            let (i, attr) = header_from(n, toks, 0, None)->Ok_0;
            0 <= i < toks.len() && n[toks[i] as int] is Ident ==> {
            &&& (i + 1 < toks.len() && is_punct(n, toks[i + 1], '<') ==> derived(n, toks) == Err::<(usize, usize, Seq<usize>), DeriveError>(DeriveError::GenericType))
            &&& (!(i + 1 < toks.len() && is_punct(n, toks[i + 1], '<')) ==> {
                &&& (attr is None ==> derived(n, toks) == Err::<(usize, usize, Seq<usize>), DeriveError>(DeriveError::MissingAttribute))
                &&& (attr matches Some((None, _)) ==> derived(n, toks) == Err::<(usize, usize, Seq<usize>), DeriveError>(DeriveError::MissingName))
                &&& (attr matches Some((Some(k), _)) && n[k as int] matches Node::Literal(s) && is_empty_literal(s@)
                    ==> derived(n, toks) == Err::<(usize, usize, Seq<usize>), DeriveError>(DeriveError::EmptyName))
            })
            }
        }),
{
}

/// Every group names only tokens stored before it, and every stream entry
/// is a stored token.
pub open spec fn forest_wf(n: Seq<Node>) -> bool {
    forall|k: int, j: int|
        0 <= k < n.len() && n[k] is Group && 0 <= j < (#[trigger] n[k]->Group_1)@.len() ==> (n[k]->Group_1)@[j] < k
}

pub open spec fn stream_wf(n: Seq<Node>, s: Seq<usize>) -> bool {
    forall|j: int| 0 <= j < s.len() ==> #[trigger] s[j] < n.len()
}

/// A token stream held as an arena of [`Node`]s and the list of its
/// top-level positions.
pub struct TokenForest {
    nodes: Vec<Node>,
    top: Vec<usize>,
}

impl TokenForest {
    pub closed spec fn spec_nodes(&self) -> Seq<Node> {
        self.nodes@
    }

    pub closed spec fn spec_top(&self) -> Seq<usize> {
        self.top@
    }

    pub open spec fn wf(&self) -> bool {
        forest_wf(self.spec_nodes()) && stream_wf(self.spec_nodes(), self.spec_top())
    }

    pub fn new() -> (r: Self)
        ensures
            r.wf(),
            r.spec_nodes() == Seq::<Node>::empty(),
            r.spec_top() == Seq::<usize>::empty(),
    {
        TokenForest { nodes: Vec::new(), top: Vec::new() }
    }

    /// Stores `node` and returns its position; `None`, storing nothing,
    /// when it is a group that names a position not stored yet.
    pub fn push_node(&mut self, node: Node) -> (r: Option<usize>)
        requires
            old(self).wf(),
        ensures
            final(self).wf(),
            final(self).spec_top() == old(self).spec_top(),
            (r is Some) == (old(self).spec_nodes().len() < usize::MAX && (node matches Node::Group(_, c)
                ==> forall|j: int| 0 <= j < c@.len() ==> #[trigger] c@[j] < old(self).spec_nodes().len())),
            r matches Some(k) ==> k == old(self).spec_nodes().len() && final(self).spec_nodes() == old(self).spec_nodes().push(node),
            r is None ==> final(self).spec_nodes() == old(self).spec_nodes(),
    {
        let len = self.nodes.len();
        if len == usize::MAX {
            return None;
        }
        let ok = match &node {
            Node::Group(_, children) => {
                let mut j: usize = 0;
                let mut all = true;
                while j < children.len()
                    invariant
                        j <= children@.len(),
                        all == forall|m: int| 0 <= m < j ==> #[trigger] children@[m] < len,
                    decreases children@.len() - j,
                {
                    if children[j] >= len {
                        all = false;
                    }
                    j = j + 1;
                }
                all
            },
            _ => true,
        };
        if !ok {
            return None;
        }
        let ghost old_nodes = self.nodes@;
        self.nodes.push(node);
        proof {
            assert forall|k: int, j: int|
                0 <= k < self.nodes@.len() && self.nodes@[k] is Group && 0 <= j < (#[trigger] self.nodes@[k]->Group_1)@.len()
                implies (self.nodes@[k]->Group_1)@[j] < k by {
                if k < old_nodes.len() {
                    assert(self.nodes@[k] == old_nodes[k]);
                }
            }
        }
        Some(len)
    }

    /// Appends the stored token `k` to the top-level stream; `false`,
    /// changing nothing, when no token is stored there.
    pub fn push_top(&mut self, k: usize) -> (r: bool)
        requires
            old(self).wf(),
        ensures
            final(self).wf(),
            final(self).spec_nodes() == old(self).spec_nodes(),
            r == (k < old(self).spec_nodes().len()),
            r ==> final(self).spec_top() == old(self).spec_top().push(k),
            !r ==> final(self).spec_top() == old(self).spec_top(),
    {
        if k < self.nodes.len() {
            self.top.push(k);
            true
        } else {
            false
        }
    }

    /// The token stored at `k`.
    pub fn node(&self, k: usize) -> (r: Option<&Node>)
        ensures
            r == (if k < self.spec_nodes().len() { Some(&self.spec_nodes()[k as int]) } else { None }),
    {
        if k < self.nodes.len() {
            Some(&self.nodes[k])
        } else {
            None
        }
    }

    /// The top-level stream.
    pub fn top(&self) -> (r: &Vec<usize>)
        ensures
            r@ == self.spec_top(),
    {
        &self.top
    }
}

pub open spec fn opt_view(o: Option<Vec<usize>>) -> Option<Seq<usize>> {
    match o {
        Some(v) => Some(v@),
        None => None,
    }
}

/// A group's inner tokens are stored tokens.
proof fn lemma_group_stream(n: Seq<Node>, k: usize, d: Delimiter)
    requires
        forest_wf(n),
        k < n.len(),
    ensures
        group_of(n, k, d) matches Some(c) ==> stream_wf(n, c),
{
    if let Some(c) = group_of(n, k, d) {
        assert forall|j: int| 0 <= j < c.len() implies #[trigger] c[j] < n.len() by {
            assert((n[k as int]->Group_1)@ == c);
            assert((n[k as int]->Group_1)@[j] < k);
        }
    }
}

/// `lit` is the literal `""`.
pub fn string_lit_is_empty(lit: &[u8]) -> (r: bool)
    ensures
        r == is_empty_literal(lit@),
{
    let r = lit.len() == 2 && lit[0] == 34u8 && lit[1] == 34u8;
    proof {
        if r {
            assert(lit@ =~= seq![quote(), quote()]);
        }
    }
    r
}

impl TokenForest {
    fn is_punct_at(&self, k: usize, c: char) -> (r: bool)
        requires
            k < self.spec_nodes().len(),
        ensures
            r == is_punct(self.spec_nodes(), k, c),
    {
        match &self.nodes[k] {
            Node::Punct(p) => *p == c,
            _ => false,
        }
    }

    fn ident_is(&self, k: usize, w: &[u8]) -> (r: bool)
        requires
            k < self.spec_nodes().len(),
        ensures
            r == is_ident(self.spec_nodes(), k, w@),
    {
        match &self.nodes[k] {
            Node::Ident(v) => bytes_equal(v.as_slice(), w),
            _ => false,
        }
    }

    fn group_at(&self, k: usize, d: Delimiter) -> (r: Option<&Vec<usize>>)
        requires
            self.wf(),
            k < self.spec_nodes().len(),
        ensures
            match r {
                Some(c) => group_of(self.spec_nodes(), k, d) == Some(c@) && stream_wf(self.spec_nodes(), c@),
                None => group_of(self.spec_nodes(), k, d) is None,
            },
    {
        proof {
            lemma_group_stream(self.nodes@, k, d);
        }
        match &self.nodes[k] {
            Node::Group(dd, c) => if *dd == d { Some(c) } else { None },
            _ => None,
        }
    }

    /// The token at `k` when it is a string literal; otherwise the error
    /// for `param`.
    pub fn expect_str_literal(&self, k: usize, param: AttrParam) -> (r: Result<usize, DeriveError>)
        requires
            k < self.spec_nodes().len(),
        ensures
            r == str_literal(self.spec_nodes(), k, param),
    {
        match &self.nodes[k] {
            Node::Literal(s) => {
                let n = s.len();
                if n >= 2 && s[0] == 34u8 && s[n - 1] == 34u8 {
                    Ok(k)
                } else {
                    Err(DeriveError::NotStringLiteral(param, k))
                }
            },
            _ => Err(DeriveError::NotStringLiteral(param, k)),
        }
    }

    /// The value of `requires` at `k`: one string literal, or a bracketed,
    /// comma-separated list of them.
    pub fn parse_requires(&self, k: usize) -> (r: Result<Vec<usize>, DeriveError>)
        requires
            self.wf(),
            k < self.spec_nodes().len(),
        ensures
            match r {
                Ok(v) => requires_value(self.spec_nodes(), k) == Ok::<Seq<usize>, DeriveError>(v@),
                Err(e) => requires_value(self.spec_nodes(), k) == Err::<Seq<usize>, DeriveError>(e),
            },
    {
        let ghost n = self.nodes@;
        match &self.nodes[k] {
            Node::Literal(_) => {
                match self.expect_str_literal(k, AttrParam::Requires) {
                    Ok(x) => {
                        let mut v: Vec<usize> = Vec::new();
                        v.push(x);
                        assert(v@ =~= seq![x]);
                        Ok(v)
                    },
                    Err(e) => Err(e),
                }
            },
            Node::Group(d, items) => {
                if *d != Delimiter::Bracket {
                    return Err(DeriveError::RequiresNotStringOrList(k));
                }
                proof {
                    lemma_group_stream(n, k, Delimiter::Bracket);
                }
                let mut acc: Vec<usize> = Vec::new();
                let mut j: usize = 0;
                while j < items.len()
                    invariant
                        n == self.spec_nodes(),
                        self.wf(),
                        stream_wf(n, items@),
                        j <= items@.len(),
                        literal_list(n, items@, j as int, acc@) == literal_list(n, items@, 0, Seq::empty()),
                        requires_value(n, k) == literal_list(n, items@, 0, Seq::empty()),
                    decreases items@.len() - j,
                {
                    if self.is_punct_at(items[j], ',') {
                        j = j + 1;
                        continue;
                    }
                    match self.expect_str_literal(items[j], AttrParam::Requires) {
                        Ok(x) => {
                            acc.push(x);
                            j = j + 1;
                        },
                        Err(e) => {
                            return Err(e);
                        },
                    }
                }
                Ok(acc)
            },
            _ => Err(DeriveError::RequiresNotStringOrList(k)),
        }
    }

    /// The parameters of a `Dependencies(...)` body: `name` and `requires`
    /// at most once each, in any order, separated by commas.
    pub fn parse_attr_body(&self, toks: &Vec<usize>) -> (r: Result<ParsedAttr, DeriveError>)
        requires
            self.wf(),
            stream_wf(self.spec_nodes(), toks@),
        ensures
            match r {
                Ok(p) => body_from(self.spec_nodes(), toks@, 0, None, None) == Ok::<(Option<usize>, Seq<usize>), DeriveError>(p@),
                Err(e) => body_from(self.spec_nodes(), toks@, 0, None, None) == Err::<(Option<usize>, Seq<usize>), DeriveError>(e),
            },
            r matches Ok(p) ==> name_in(self.spec_nodes(), p.name),
    {
        let ghost n = self.nodes@;
        let name_word: [u8; 4] = [110u8, 97, 109, 101];
        let requires_word: [u8; 8] = [114u8, 101, 113, 117, 105, 114, 101, 115];
        let mut i: usize = 0;
        let mut name: Option<usize> = None;
        let mut required: Option<Vec<usize>> = None;
        while i < toks.len()
            invariant
                n == self.spec_nodes(),
                self.wf(),
                stream_wf(n, toks@),
                i <= toks@.len(),
                name_word@ == word_name(),
                requires_word@ == word_requires(),
                body_from(n, toks@, i as int, name, opt_view(required))
                    == body_from(n, toks@, 0, None, None),
                name_in(n, name),
            decreases toks@.len() - i,
        {
            let t = toks[i];
            if self.is_punct_at(t, ',') {
                i = i + 1;
                continue;
            }
            let key = match &self.nodes[t] {
                Node::Ident(v) => v,
                _ => {
                    return Err(DeriveError::ExpectedParameterName(t));
                },
            };
            if !(i + 1 < toks.len() && self.is_punct_at(toks[i + 1], '=')) {
                return Err(DeriveError::ExpectedEquals(t));
            }
            if i + 2 >= toks.len() {
                return Err(DeriveError::ExpectedValue(t));
            }
            let value = toks[i + 2];
            if bytes_equal(key.as_slice(), &name_word) {
                if name.is_some() {
                    return Err(DeriveError::DuplicateName);
                }
                match self.expect_str_literal(value, AttrParam::Name) {
                    Ok(k) => {
                        name = Some(k);
                    },
                    Err(e) => {
                        return Err(e);
                    },
                }
            } else if bytes_equal(key.as_slice(), &requires_word) {
                if required.is_some() {
                    return Err(DeriveError::DuplicateRequires);
                }
                match self.parse_requires(value) {
                    Ok(l) => {
                        required = Some(l);
                    },
                    Err(e) => {
                        return Err(e);
                    },
                }
            } else {
                return Err(DeriveError::UnknownParameter(t));
            }
            i = i + 3;
        }
        let required = match required {
            Some(v) => v,
            None => Vec::new(),
        };
        let p = ParsedAttr { name, required };
        proof {
            assert(p@ == (name, p.required@));
        }
        Ok(p)
    }
}

/// The name literal, if any, is a stored token.
pub open spec fn name_in(n: Seq<Node>, name: Option<usize>) -> bool {
    match name {
        Some(k) => k < n.len(),
        None => true,
    }
}

pub open spec fn attr_view(a: Option<ParsedAttr>) -> Option<(Option<usize>, Seq<usize>)> {
    match a {
        Some(p) => Some(p@),
        None => None,
    }
}

impl TokenForest {
    /// The contents of one bracketed attribute: `None` when it is not
    /// `Dependencies(...)`, an error when `Dependencies` is not followed by
    /// exactly one parenthesized group or that group is malformed.
    pub fn parse_dependencies_attr(&self, toks: &Vec<usize>) -> (r: Result<Option<ParsedAttr>, DeriveError>)
        requires
            self.wf(),
            stream_wf(self.spec_nodes(), toks@),
        ensures
            match r {
                Ok(a) => attribute(self.spec_nodes(), toks@) == Ok::<Option<(Option<usize>, Seq<usize>)>, DeriveError>(attr_view(a)),
                Err(e) => attribute(self.spec_nodes(), toks@) == Err::<Option<(Option<usize>, Seq<usize>)>, DeriveError>(e),
            },
            r matches Ok(Some(p)) ==> name_in(self.spec_nodes(), p.name),
    {
        let dependencies_word: [u8; 12] = [68u8, 101, 112, 101, 110, 100, 101, 110, 99, 105, 101, 115];
        if toks.len() == 0 {
            return Ok(None);
        }
        if !self.ident_is(toks[0], &dependencies_word) {
            return Ok(None);
        }
        let body = if toks.len() >= 2 {
            self.group_at(toks[1], Delimiter::Parenthesis)
        } else {
            None
        };
        match body {
            None => Err(DeriveError::ExpectedAttributeBody),
            Some(body) => {
                if toks.len() > 2 {
                    return Err(DeriveError::TrailingTokens);
                }
                match self.parse_attr_body(body) {
                    Ok(p) => Ok(Some(p)),
                    Err(e) => Err(e),
                }
            },
        }
    }

    /// Derives `Dependencies` for the item held at the top level: skips
    /// attributes other than `#[Dependencies(...)]` and the visibility, takes
    /// the name after `struct`, `enum` or `union`, refuses generic types,
    /// and needs exactly one `Dependencies` attribute with a non-empty
    /// `name`.
    pub fn process(&self) -> (r: Result<DependenciesImpl, DeriveError>)
        requires
            self.wf(),
        ensures
            match r {
                Ok(d) => derived(self.spec_nodes(), self.spec_top()) == Ok::<(usize, usize, Seq<usize>), DeriveError>((d.type_token, d.name, d.required@)),
                Err(e) => derived(self.spec_nodes(), self.spec_top()) == Err::<(usize, usize, Seq<usize>), DeriveError>(e),
            },
    {
        let ghost n = self.nodes@;
        let ghost top = self.top@;
        let pub_word: [u8; 3] = [112u8, 117, 98];
        let struct_word: [u8; 6] = [115u8, 116, 114, 117, 99, 116];
        let enum_word: [u8; 4] = [101u8, 110, 117, 109];
        let union_word: [u8; 5] = [117u8, 110, 105, 111, 110];
        let toks = &self.top;
        let mut i: usize = 0;
        let mut attr: Option<ParsedAttr> = None;
        let mut done = false;
        while i < toks.len() && !done
            invariant
                n == self.spec_nodes(),
                toks@ == top,
                self.wf(),
                top == self.spec_top(),
                i <= toks@.len(),
                pub_word@ == word_pub(),
                is_type_keyword(struct_word@),
                is_type_keyword(enum_word@),
                is_type_keyword(union_word@),
                forall|w: Seq<u8>| is_type_keyword(w) ==> w == struct_word@ || w == enum_word@ || w == union_word@,
                !done ==> header_from(n, top, i as int, attr_view(attr)) == header_from(n, top, 0, None),
                done ==> header_from(n, top, 0, None) == Ok::<(int, Option<(Option<usize>, Seq<usize>)>), DeriveError>((i as int, attr_view(attr))),
                attr matches Some(p) ==> name_in(n, p.name),
            decreases toks@.len() - i + (if done { 0int } else { 1int }),
        {
            let t = toks[i];
            match &self.nodes[t] {
                Node::Punct(c) => {
                    let group = if *c == '#' && i + 1 < toks.len() {
                        self.group_at(toks[i + 1], Delimiter::Bracket)
                    } else {
                        None
                    };
                    match group {
                        Some(g) => {
                            match self.parse_dependencies_attr(g) {
                                Err(e) => {
                                    return Err(e);
                                },
                                Ok(None) => {},
                                Ok(Some(p)) => {
                                    if attr.is_some() {
                                        return Err(DeriveError::MultipleAttributes);
                                    }
                                    attr = Some(p);
                                },
                            }
                            i = i + 2;
                        },
                        None => {
                            i = i + 1;
                        },
                    }
                },
                Node::Ident(id) => {
                    if bytes_equal(id.as_slice(), &pub_word) {
                        let restricted = i + 1 < toks.len() && self.group_at(toks[i + 1], Delimiter::Parenthesis).is_some();
                        i = if restricted { i + 2 } else { i + 1 };
                    } else if bytes_equal(id.as_slice(), &struct_word) || bytes_equal(id.as_slice(), &enum_word)
                        || bytes_equal(id.as_slice(), &union_word) {
                        i = i + 1;
                        done = true;
                    } else {
                        return Err(DeriveError::NotAType(t));
                    }
                },
                _ => {
                    i = i + 1;
                },
            }
        }
        proof {
            if !done {
                assert(header_from(n, top, i as int, attr_view(attr)) == Ok::<(int, Option<(Option<usize>, Seq<usize>)>), DeriveError>((i as int, attr_view(attr))));
            }
        }
        let named = i < toks.len() && match &self.nodes[toks[i]] {
            Node::Ident(_) => true,
            _ => false,
        };
        if !named {
            return Err(DeriveError::ExpectedTypeName);
        }
        let type_token = toks[i];
        if i + 1 < toks.len() && self.is_punct_at(toks[i + 1], '<') {
            return Err(DeriveError::GenericType);
        }
        let p = match attr {
            None => {
                return Err(DeriveError::MissingAttribute);
            },
            Some(p) => p,
        };
        let name = match p.name {
            None => {
                return Err(DeriveError::MissingName);
            },
            Some(k) => k,
        };
        proof {
            assert(stream_wf(n, top));
        }
        let empty = match &self.nodes[name] {
            Node::Literal(s) => string_lit_is_empty(s.as_slice()),
            _ => false,
        };
        if empty {
            return Err(DeriveError::EmptyName);
        }
        Ok(DependenciesImpl { type_token, name, required: p.required })
    }
}

} // verus!
