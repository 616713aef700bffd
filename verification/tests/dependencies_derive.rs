use content_scan::derive_dependencies::{string_lit_is_empty, AttrParam, Delimiter, DeriveError, Node, TokenForest};

/// A token tree written out by hand.
enum T {
    I(&'static str),
    P(char),
    L(&'static str),
    G(Delimiter, Vec<T>),
}

fn store(f: &mut TokenForest, t: &T) -> usize {
    let node = match t {
        T::I(s) => Node::Ident(s.as_bytes().to_vec()),
        T::P(c) => Node::Punct(*c),
        T::L(s) => Node::Literal(s.as_bytes().to_vec()),
        T::G(d, inner) => {
            let kids: Vec<usize> = inner.iter().map(|k| store(f, k)).collect();
            Node::Group(*d, kids)
        }
    };
    f.push_node(node).unwrap()
}

fn forest(item: Vec<T>) -> TokenForest {
    let mut f = TokenForest::new();
    for t in &item {
        let k = store(&mut f, t);
        assert!(f.push_top(k));
    }
    f
}

/// `#[Dependencies(<body>)]`
fn attr(body: Vec<T>) -> Vec<T> {
    vec![T::P('#'), T::G(Delimiter::Bracket, vec![T::I("Dependencies"), T::G(Delimiter::Parenthesis, body)])]
}

fn item(attrs: Vec<Vec<T>>, rest: Vec<T>) -> Vec<T> {
    let mut v: Vec<T> = attrs.into_iter().flatten().collect();
    v.extend(rest);
    v
}

fn plain_struct(name: &'static str) -> Vec<T> {
    vec![T::I("struct"), T::I(name), T::P(';')]
}

fn text(f: &TokenForest, k: usize) -> String {
    match f.node(k).unwrap() {
        Node::Ident(v) | Node::Literal(v) => String::from_utf8(v.clone()).unwrap(),
        _ => panic!("not a text token"),
    }
}

/// The string a literal stands for.
fn unquoted(f: &TokenForest, k: usize) -> String {
    let s = text(f, k);
    s[1..s.len() - 1].to_string()
}

fn derive(item: Vec<T>) -> (TokenForest, Result<(String, String, Vec<String>), DeriveError>) {
    let f = forest(item);
    let r = f.process().map(|d| {
        (text(&f, d.type_token), unquoted(&f, d.name), d.required.iter().map(|k| unquoted(&f, *k)).collect())
    });
    (f, r)
}

#[test]
fn single_requires_string() {
    let (_, r) = derive(item(
        vec![attr(vec![T::I("name"), T::P('='), T::L("\"xyz\""), T::P(','), T::I("requires"), T::P('='), T::L("\"abc\"")])],
        plain_struct("PluginA"),
    ));
    let (ty, name, deps) = r.unwrap();
    assert_eq!(ty, "PluginA");
    assert_eq!(name, "xyz");
    assert_eq!(deps, vec!["abc"]);
}

#[test]
fn requires_array() {
    let list = T::G(
        Delimiter::Bracket,
        vec![T::L("\"abc\""), T::P(','), T::L("\"123\""), T::P(','), T::L("\"blablabla\"")],
    );
    let (_, r) = derive(item(
        vec![attr(vec![T::I("name"), T::P('='), T::L("\"xyz\""), T::P(','), T::I("requires"), T::P('='), list])],
        plain_struct("PluginB"),
    ));
    let (ty, name, deps) = r.unwrap();
    assert_eq!(ty, "PluginB");
    assert_eq!(name, "xyz");
    assert_eq!(deps, vec!["abc", "123", "blablabla"]);
}

#[test]
fn requires_optional() {
    let (_, r) = derive(item(vec![attr(vec![T::I("name"), T::P('='), T::L("\"solo\"")])], plain_struct("PluginC")));
    let (ty, name, deps) = r.unwrap();
    assert_eq!(ty, "PluginC");
    assert_eq!(name, "solo");
    assert!(deps.is_empty());
}

fn name_solo() -> Vec<T> {
    attr(vec![T::I("name"), T::P('='), T::L("\"solo\"")])
}

#[test]
fn other_attributes_visibility_and_enums_are_accepted() {
    let derive_attr = vec![T::P('#'), T::G(Delimiter::Bracket, vec![T::I("derive"), T::G(Delimiter::Parenthesis, vec![T::I("Debug")])])];
    let (_, r) = derive(item(
        vec![derive_attr, name_solo()],
        vec![T::I("pub"), T::G(Delimiter::Parenthesis, vec![T::I("crate")]), T::I("enum"), T::I("Kind"), T::G(Delimiter::Brace, vec![])],
    ));
    assert_eq!(r.unwrap().0, "Kind");
}

#[test]
fn item_errors() {
    assert_eq!(derive(plain_struct("NoAttr")).1.unwrap_err(), DeriveError::MissingAttribute);
    assert_eq!(derive(item(vec![name_solo(), name_solo()], plain_struct("Two"))).1.unwrap_err(), DeriveError::MultipleAttributes);
    assert_eq!(
        derive(item(vec![name_solo()], vec![T::I("struct"), T::I("G"), T::P('<'), T::I("T"), T::P('>')])).1.unwrap_err(),
        DeriveError::GenericType
    );
    assert_eq!(derive(item(vec![name_solo()], vec![T::I("struct")])).1.unwrap_err(), DeriveError::ExpectedTypeName);
    let (f, r) = derive(item(vec![name_solo()], vec![T::I("fn"), T::I("f")]));
    match r.unwrap_err() {
        DeriveError::NotAType(k) => assert_eq!(text(&f, k), "fn"),
        e => panic!("{:?}", e),
    }
    assert_eq!(derive(item(vec![attr(vec![T::I("name"), T::P('='), T::L("\"\"")])], plain_struct("E"))).1.unwrap_err(), DeriveError::EmptyName);
    assert_eq!(derive(item(vec![attr(vec![])], plain_struct("E"))).1.unwrap_err(), DeriveError::MissingName);
}

#[test]
fn attribute_errors() {
    let bad_shape = vec![T::P('#'), T::G(Delimiter::Bracket, vec![T::I("Dependencies"), T::I("name")])];
    assert_eq!(derive(item(vec![bad_shape], plain_struct("S"))).1.unwrap_err(), DeriveError::ExpectedAttributeBody);
    let trailing = vec![
        T::P('#'),
        T::G(Delimiter::Bracket, vec![T::I("Dependencies"), T::G(Delimiter::Parenthesis, vec![]), T::I("x")]),
    ];
    assert_eq!(derive(item(vec![trailing], plain_struct("S"))).1.unwrap_err(), DeriveError::TrailingTokens);
    let dup = attr(vec![T::I("name"), T::P('='), T::L("\"a\""), T::P(','), T::I("name"), T::P('='), T::L("\"b\"")]);
    assert_eq!(derive(item(vec![dup], plain_struct("S"))).1.unwrap_err(), DeriveError::DuplicateName);
    let dup_req = attr(vec![T::I("requires"), T::P('='), T::L("\"a\""), T::I("requires"), T::P('='), T::L("\"b\"")]);
    assert_eq!(derive(item(vec![dup_req], plain_struct("S"))).1.unwrap_err(), DeriveError::DuplicateRequires);
}

#[test]
fn parameter_errors_name_the_offending_token() {
    let (f, r) = derive(item(vec![attr(vec![T::I("color"), T::P('='), T::L("\"red\"")])], plain_struct("S")));
    match r.unwrap_err() {
        DeriveError::UnknownParameter(k) => assert_eq!(text(&f, k), "color"),
        e => panic!("{:?}", e),
    }
    let (f, r) = derive(item(vec![attr(vec![T::L("\"x\"")])], plain_struct("S")));
    match r.unwrap_err() {
        DeriveError::ExpectedParameterName(k) => assert_eq!(text(&f, k), "\"x\""),
        e => panic!("{:?}", e),
    }
    let (f, r) = derive(item(vec![attr(vec![T::I("name"), T::L("\"x\"")])], plain_struct("S")));
    match r.unwrap_err() {
        DeriveError::ExpectedEquals(k) => assert_eq!(text(&f, k), "name"),
        e => panic!("{:?}", e),
    }
    let (f, r) = derive(item(vec![attr(vec![T::I("requires"), T::P('=')])], plain_struct("S")));
    match r.unwrap_err() {
        DeriveError::ExpectedValue(k) => assert_eq!(text(&f, k), "requires"),
        e => panic!("{:?}", e),
    }
    let (f, r) = derive(item(vec![attr(vec![T::I("name"), T::P('='), T::L("42")])], plain_struct("S")));
    match r.unwrap_err() {
        DeriveError::NotStringLiteral(AttrParam::Name, k) => assert_eq!(text(&f, k), "42"),
        e => panic!("{:?}", e),
    }
    let (f, r) = derive(item(vec![attr(vec![T::I("requires"), T::P('='), T::I("abc")])], plain_struct("S")));
    match r.unwrap_err() {
        DeriveError::RequiresNotStringOrList(k) => assert_eq!(text(&f, k), "abc"),
        e => panic!("{:?}", e),
    }
    let list = T::G(Delimiter::Bracket, vec![T::L("\"a\""), T::I("b")]);
    let (f, r) = derive(item(vec![attr(vec![T::I("requires"), T::P('='), list])], plain_struct("S")));
    match r.unwrap_err() {
        DeriveError::NotStringLiteral(AttrParam::Requires, k) => assert_eq!(text(&f, k), "b"),
        e => panic!("{:?}", e),
    }
}

#[test]
fn forest_refuses_groups_that_name_unstored_tokens() {
    let mut f = TokenForest::new();
    assert_eq!(f.push_node(Node::Group(Delimiter::Brace, vec![0])), None);
    let k = f.push_node(Node::Punct(';')).unwrap();
    assert_eq!(f.push_node(Node::Group(Delimiter::Brace, vec![k])), Some(1));
    assert!(!f.push_top(7));
    assert!(f.push_top(1));
    assert_eq!(f.top(), &vec![1]);
}

#[test]
fn empty_literal_test_needs_exactly_two_quotes() {
    assert!(string_lit_is_empty(b"\"\""));
    assert!(!string_lit_is_empty(b"\" \""));
    assert!(!string_lit_is_empty(b"\""));
}
