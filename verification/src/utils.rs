use vstd::prelude::*;
use vstd::string::StringSliceAdditionalSpecFns;

verus! {

/// `/` or `\`: both separate path components.
pub open spec fn is_path_separator(b: u8) -> bool {
    b == 47u8 || b == 92u8
}

/// The bytes of `s` that follow the last byte satisfying `pred`
/// (all of `s` when no byte does).
pub open spec fn tail_after_last(s: Seq<u8>, pred: spec_fn(u8) -> bool) -> Seq<u8>
    decreases s.len(),
{
    if s.len() == 0 {
        Seq::empty()
    } else if pred(s.last()) {
        Seq::empty()
    } else {
        tail_after_last(s.drop_last(), pred).push(s.last())
    }
}

/// The basename of a path: everything after the last `/` or `\`.
pub open spec fn file_name_of(path: Seq<u8>) -> Seq<u8> {
    tail_after_last(path, separator_pred())
}

pub open spec fn separator_pred() -> spec_fn(u8) -> bool {
    |b: u8| is_path_separator(b)
}

pub open spec fn dot_pred() -> spec_fn(u8) -> bool {
    |b: u8| b == 46u8
}

/// The extension of a file name: everything after its last `.`, or
/// nothing when the name holds no `.`.
pub open spec fn extension_of(name: Seq<u8>) -> Seq<u8> {
    if name.contains(46u8) {
        tail_after_last(name, dot_pred())
    } else {
        Seq::empty()
    }
}

pub open spec fn is_ascii_upper(b: u8) -> bool {
    65u8 <= b <= 90u8
}

pub open spec fn ascii_lower(b: u8) -> u8 {
    if is_ascii_upper(b) {
        (b + 32) as u8
    } else {
        b
    }
}

/// The ASCII-lowercase form of a byte string.
pub open spec fn lower_seq(s: Seq<u8>) -> Seq<u8> {
    s.map_values(|b: u8| ascii_lower(b))
}

/// The tail after the last byte matching `pred` holds no uppercase letter
/// when `s` holds none.
proof fn lemma_tail_no_upper(s: Seq<u8>, pred: spec_fn(u8) -> bool)
    requires
        forall|i: int| 0 <= i < s.len() ==> !is_ascii_upper(#[trigger] s[i]),
    ensures
        forall|i: int| 0 <= i < tail_after_last(s, pred).len() ==> !is_ascii_upper(#[trigger] tail_after_last(s, pred)[i]),
    decreases s.len(),
{
    if s.len() > 0 && !pred(s.last()) {
        let t = s.drop_last();
        assert forall|i: int| 0 <= i < t.len() implies !is_ascii_upper(#[trigger] t[i]) by {
            assert(t[i] == s[i]);
        }
        lemma_tail_no_upper(t, pred);
        let tt = tail_after_last(t, pred);
        assert(tail_after_last(s, pred) == tt.push(s.last()));
        assert forall|i: int| 0 <= i < tt.len() + 1 implies !is_ascii_upper(#[trigger] tt.push(s.last())[i]) by {
            if i < tt.len() {
                assert(tt.push(s.last())[i] == tt[i]);
            } else {
                assert(s.last() == s[s.len() - 1]);
            }
        }
    }
}

/// The extension of a lowercase name is lowercase.
pub proof fn lemma_lower_extension(n: Seq<u8>)
    ensures
        lower_seq(extension_of(lower_seq(n))) == extension_of(lower_seq(n)),
{
    let l = lower_seq(n);
    assert forall|i: int| 0 <= i < l.len() implies !is_ascii_upper(#[trigger] l[i]) by {}
    lemma_tail_no_upper(l, dot_pred());
    let e = extension_of(l);
    assert(lower_seq(e) =~= e) by {
        assert forall|i: int| 0 <= i < e.len() implies lower_seq(e)[i] == e[i] by {
            assert(!is_ascii_upper(e[i]));
        }
    }
}

/// Lowering a string without uppercase letters leaves it unchanged.
pub proof fn lemma_lower_no_upper(s: Seq<u8>)
    requires
        !(exists|i: int| 0 <= i < s.len() && is_ascii_upper(#[trigger] s[i])),
    ensures
        lower_seq(s) == s,
{
    assert(lower_seq(s) =~= s) by {
        assert forall|i: int| 0 <= i < s.len() implies lower_seq(s)[i] == s[i] by {
            assert(!is_ascii_upper(s[i]));
        }
    }
}

/// When no byte of `s[i..]` satisfies `pred`, the tail after the last such byte
/// of `s` is that of `s[..i]` followed by `s[i..]`.
proof fn lemma_tail_split(s: Seq<u8>, pred: spec_fn(u8) -> bool, i: int)
    requires
        0 <= i <= s.len(),
        forall|j: int| i <= j < s.len() ==> !pred(#[trigger] s[j]),
    ensures
        tail_after_last(s, pred) == tail_after_last(s.take(i), pred) + s.subrange(i, s.len() as int),
    decreases s.len(),
{
    if s.len() == i {
        assert(s.take(i) == s);
        assert(s.subrange(i, s.len() as int) == Seq::<u8>::empty());
    } else {
        let t = s.drop_last();
        lemma_tail_split(t, pred, i);
        assert(t.take(i) == s.take(i));
        assert(s.subrange(i, s.len() as int) == t.subrange(i, t.len() as int).push(s.last()));
    }
}

/// Index just past the last byte of `s` that satisfies `is_sep`/`is_dot`,
/// found by scanning from the end.
fn last_position(s: &[u8], dot: bool) -> (r: Option<usize>)
    ensures
        match r {
            Some(k) => {
                &&& k < s@.len()
                &&& (if dot { s@[k as int] == 46u8 } else { is_path_separator(s@[k as int]) })
                &&& forall|j: int| k < j < s@.len() ==> !(if dot { s@[j] == 46u8 } else { is_path_separator(s@[j]) })
            },
            None => forall|j: int| 0 <= j < s@.len() ==> !(if dot { s@[j] == 46u8 } else { is_path_separator(s@[j]) }),
        },
{
    let mut i = s.len();
    while i > 0
        invariant
            i <= s@.len(),
            forall|j: int| i <= j < s@.len() ==> !(if dot { s@[j] == 46u8 } else { is_path_separator(s@[j]) }),
        decreases i,
    {
        let b = s[i - 1];
        let hit = if dot { b == 46u8 } else { b == 47u8 || b == 92u8 };
        if hit {
            return Some(i - 1);
        }
        i = i - 1;
    }
    None
}

/// Returns the basename of `path`: the bytes after the last `/` or `\`,
/// or the whole path when it has no separator.
pub fn get_file_name(path: &[u8]) -> (r: &[u8])
    ensures
        r@ == file_name_of(path@),
{
    match last_position(path, false) {
        Some(k) => {
            proof {
                lemma_tail_split(path@, separator_pred(), k + 1);
                assert(path@.take(k + 1).last() == path@[k as int]);
            }
            let n = path.len();
            &path[k + 1..n]
        },
        None => {
            proof {
                lemma_tail_split(path@, separator_pred(), 0);
                assert(path@.subrange(0, path@.len() as int) == path@);
            }
            path
        },
    }
}

/// Returns the extension of `file_name`: the bytes after its last `.`,
/// or an empty slice when it has no `.`.
pub fn get_extension(file_name: &[u8]) -> (r: &[u8])
    ensures
        r@ == extension_of(file_name@),
{
    match last_position(file_name, true) {
        Some(k) => {
            proof {
                lemma_tail_split(file_name@, dot_pred(), k + 1);
                assert(file_name@.take(k + 1).last() == file_name@[k as int]);
                assert(file_name@.contains(46u8));
            }
            let n = file_name.len();
            &file_name[k + 1..n]
        },
        None => {
            proof {
                assert(!file_name@.contains(46u8));
            }
            &file_name[0..0]
        },
    }
}

/// Tells whether `buf` holds an ASCII uppercase letter.
pub fn contains_uppercase(buf: &[u8]) -> (r: bool)
    ensures
        r == exists|i: int| 0 <= i < buf@.len() && is_ascii_upper(#[trigger] buf@[i]),
{
    let mut i: usize = 0;
    while i < buf.len()
        invariant
            i <= buf@.len(),
            forall|j: int| 0 <= j < i ==> !is_ascii_upper(#[trigger] buf@[j]),
        decreases buf@.len() - i,
    {
        if buf[i] >= 65u8 && buf[i] <= 90u8 {
            assert(is_ascii_upper(buf@[i as int]));
            return true;
        }
        i = i + 1;
    }
    false
}

/// Clears `output`, fills it with the ASCII-lowercase form of `source`
/// and returns it as a slice.
pub fn copy_lowercase<'a>(source: &[u8], output: &'a mut Vec<u8>) -> (r: &'a [u8])
    ensures
        r@ == lower_seq(source@),
        final(output)@ == lower_seq(source@),
{
    output.clear();
    let mut i: usize = 0;
    while i < source.len()
        invariant
            i <= source@.len(),
            output@ == lower_seq(source@.take(i as int)),
        decreases source@.len() - i,
    {
        let b = source[i];
        let l = if b >= 65u8 && b <= 90u8 { b + 32 } else { b };
        output.push(l);
        assert(source@.take(i + 1) == source@.take(i as int).push(b));
        i = i + 1;
    }
    assert(source@.take(source@.len() as int) == source@);
    output.as_slice()
}

/// `Box::leak` of the vector's boxed slice: the same bytes, kept alive
/// for the rest of the program.
#[verifier::external_body]
fn leak_bytes(v: Vec<u8>) -> (r: &'static [u8])
    ensures
        r@ == v@,
{
    Box::leak(v.into_boxed_slice())
}

/// The ASCII-lowercase form of a `'static` pattern. An already-lowercase
/// pattern is returned as is; a mixed-case one is lowered once into a
/// buffer that lives for the rest of the program.
pub fn ascii_lower_static(s: &'static str) -> (r: &'static [u8])
    ensures
        r@ == lower_seq(s.spec_bytes()),
{
    let bytes = s.as_bytes();
    if !contains_uppercase(bytes) {
        assert(lower_seq(bytes@) =~= bytes@) by {
            assert forall|i: int| 0 <= i < bytes@.len() implies lower_seq(bytes@)[i] == bytes@[i] by {
                assert(!is_ascii_upper(bytes@[i]));
            }
        }
        bytes
    } else {
        let mut owned: Vec<u8> = Vec::new();
        copy_lowercase(bytes, &mut owned);
        leak_bytes(owned)
    }
}

/// Tells whether `a` and `b` hold the same bytes.
pub fn bytes_equal(a: &[u8], b: &[u8]) -> (r: bool)
    ensures
        r == (a@ == b@),
{
    if a.len() != b.len() {
        return false;
    }
    let mut i: usize = 0;
    while i < a.len()
        invariant
            a@.len() == b@.len(),
            i <= a@.len(),
            forall|j: int| 0 <= j < i ==> a@[j] == b@[j],
        decreases a@.len() - i,
    {
        if a[i] != b[i] {
            return false;
        }
        i = i + 1;
    }
    assert(a@ =~= b@);
    true
}

/// Tells whether `data` begins with `prefix`.
pub fn bytes_start_with(data: &[u8], prefix: &[u8]) -> (r: bool)
    ensures
        r == (prefix@.len() <= data@.len() && data@.take(prefix@.len() as int) == prefix@),
{
    if prefix.len() > data.len() {
        return false;
    }
    let mut i: usize = 0;
    while i < prefix.len()
        invariant
            prefix@.len() <= data@.len(),
            i <= prefix@.len(),
            forall|j: int| 0 <= j < i ==> data@[j] == prefix@[j],
        decreases prefix@.len() - i,
    {
        if data[i] != prefix[i] {
            assert(data@.take(prefix@.len() as int)[i as int] != prefix@[i as int]);
            return false;
        }
        i = i + 1;
    }
    assert(data@.take(prefix@.len() as int) =~= prefix@);
    true
}

} // verus!
