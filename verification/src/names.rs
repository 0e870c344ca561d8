//! File names as byte strings: their order, equality and extension.

use vstd::prelude::*;

verus! {

/// The byte that separates a file name from its extension.
pub const DOT: u8 = 0x2e;

/// `a` comes before `b`, or equals it, in lexicographic byte order: the first
/// byte in which they differ decides, and a proper prefix comes first.
pub open spec fn lex_le(a: Seq<u8>, b: Seq<u8>) -> bool
    decreases a.len(),
{
    if a.len() == 0 {
        true
    } else if b.len() == 0 {
        false
    } else if a[0] != b[0] {
        a[0] < b[0]
    } else {
        lex_le(a.drop_first(), b.drop_first())
    }
}

/// `a` comes strictly before `b` in lexicographic byte order.
pub open spec fn lex_lt(a: Seq<u8>, b: Seq<u8>) -> bool {
    lex_le(a, b) && a != b
}

/// Every name is at most itself.
pub proof fn lemma_lex_le_reflexive(a: Seq<u8>)
    ensures
        lex_le(a, a),
    decreases a.len(),
{
    if a.len() > 0 {
        lemma_lex_le_reflexive(a.drop_first());
    }
}

/// Of two names, one is at most the other.
pub proof fn lemma_lex_le_total(a: Seq<u8>, b: Seq<u8>)
    ensures
        lex_le(a, b) || lex_le(b, a),
    decreases a.len(),
{
    if a.len() > 0 && b.len() > 0 && a[0] == b[0] {
        lemma_lex_le_total(a.drop_first(), b.drop_first());
    }
}

/// Two names that are each at most the other are the same name.
pub proof fn lemma_lex_le_antisymmetric(a: Seq<u8>, b: Seq<u8>)
    requires
        lex_le(a, b),
        lex_le(b, a),
    ensures
        a == b,
    decreases a.len(),
{
    if a.len() == 0 {
        assert(a =~= b);
    } else {
        lemma_lex_le_antisymmetric(a.drop_first(), b.drop_first());
        assert(a =~= seq![a[0]] + a.drop_first());
        assert(b =~= seq![b[0]] + b.drop_first());
    }
}

/// The order passes along a chain of three names.
pub proof fn lemma_lex_le_transitive(a: Seq<u8>, b: Seq<u8>, c: Seq<u8>)
    requires
        lex_le(a, b),
        lex_le(b, c),
    ensures
        lex_le(a, c),
    decreases a.len(),
{
    if a.len() > 0 && a[0] == b[0] && b[0] == c[0] {
        lemma_lex_le_transitive(a.drop_first(), b.drop_first(), c.drop_first());
    }
}

/// Two names that agree before position `k` compare as their remainders do.
pub proof fn lemma_lex_le_common_prefix(a: Seq<u8>, b: Seq<u8>, k: int)
    requires
        0 <= k <= a.len(),
        k <= b.len(),
        forall|j: int| 0 <= j < k ==> a[j] == b[j],
    ensures
        lex_le(a, b) == lex_le(a.skip(k), b.skip(k)),
    decreases k,
{
    if k == 0 {
        assert(a.skip(0) =~= a);
        assert(b.skip(0) =~= b);
    } else {
        lemma_lex_le_common_prefix(a.drop_first(), b.drop_first(), k - 1);
        assert(a.drop_first().skip(k - 1) =~= a.skip(k));
        assert(b.drop_first().skip(k - 1) =~= b.skip(k));
    }
}

/// Whether `a` comes before `b`, or equals it, in lexicographic byte order.
pub fn name_le(a: &[u8], b: &[u8]) -> (r: bool)
    ensures
        r == lex_le(a@, b@),
{
    let mut i: usize = 0;
    while i < a.len() && i < b.len()
        invariant
            i <= a.len(),
            i <= b.len(),
            forall|j: int| 0 <= j < i ==> a@[j] == b@[j],
        decreases a.len() - i,
    {
        if a[i] != b[i] {
            proof {
                lemma_lex_le_common_prefix(a@, b@, i as int);
            }
            return a[i] < b[i];
        }
        i = i + 1;
    }
    proof {
        lemma_lex_le_common_prefix(a@, b@, i as int);
    }
    i == a.len()
}

/// Whether two names hold the same bytes.
pub fn name_eq(a: &[u8], b: &[u8]) -> (r: bool)
    ensures
        r == (a@ == b@),
{
    if a.len() != b.len() {
        return false;
    }
    let mut i: usize = 0;
    while i < a.len()
        invariant
            i <= a.len(),
            a.len() == b.len(),
            forall|j: int| 0 <= j < i ==> a@[j] == b@[j],
        decreases a.len() - i,
    {
        if a[i] != b[i] {
            return false;
        }
        i = i + 1;
    }
    assert(a@ =~= b@);
    true
}

/// A copy of the bytes from position `from` on.
pub(crate) fn copy_from(bytes: &[u8], from: usize) -> (out: Vec<u8>)
    requires
        from <= bytes.len(),
    ensures
        out@ == bytes@.skip(from as int),
{
    let mut out: Vec<u8> = Vec::new();
    let mut i: usize = from;
    while i < bytes.len()
        invariant
            from <= i <= bytes.len(),
            out@ == bytes@.subrange(from as int, i as int),
        decreases bytes.len() - i,
    {
        out.push(bytes[i]);
        assert(bytes@.subrange(from as int, i as int).push(bytes@[i as int])
            =~= bytes@.subrange(from as int, i + 1));
        i = i + 1;
    }
    assert(bytes@.subrange(from as int, bytes.len() as int) =~= bytes@.skip(from as int));
    out
}

/// The position of the last dot in `name`, or -1 where it holds none.
pub open spec fn last_dot(name: Seq<u8>) -> int
    decreases name.len(),
{
    if name.len() == 0 {
        -1
    } else if name.last() == DOT {
        name.len() - 1
    } else {
        last_dot(name.drop_last())
    }
}

/// What `last_dot` finds is a dot with no dot after it; -1 means no dot at all.
pub proof fn lemma_last_dot(name: Seq<u8>)
    ensures
        -1 <= last_dot(name) < name.len(),
        last_dot(name) >= 0 ==> name[last_dot(name)] == DOT,
        forall|j: int| last_dot(name) < j < name.len() ==> name[j] != DOT,
    decreases name.len(),
{
    if name.len() > 0 && name.last() != DOT {
        let front = name.drop_last();
        lemma_last_dot(front);
        assert forall|j: int| last_dot(name) < j < name.len() implies name[j] != DOT by {
            if j < front.len() {
                assert(front[j] == name[j]);
            }
        }
    }
}

/// The extension of a file name: the bytes after its last dot. A name without
/// a dot has none, nor has one whose only dot is its first byte, nor has `..`.
/// A name that ends in a dot has the empty extension.
pub open spec fn extension_of(name: Seq<u8>) -> Option<Seq<u8>> {
    if last_dot(name) <= 0 || name == seq![DOT, DOT] {
        None
    } else {
        Some(name.skip(last_dot(name) + 1))
    }
}

/// The extension of `name`, copied out, as `extension_of` defines it.
pub fn extension(name: &[u8]) -> (ext: Option<Vec<u8>>)
    ensures
        opt_view(ext) == extension_of(name@),
{
    let mut i: usize = name.len();
    assert(name@.take(name.len() as int) =~= name@);
    while i > 0 && name[i - 1] != DOT
        invariant
            i <= name.len(),
            last_dot(name@) == last_dot(name@.take(i as int)),
        decreases i,
    {
        assert(name@.take(i as int).drop_last() =~= name@.take(i - 1));
        i = i - 1;
    }
    if i == 0 {
        assert(name@.take(0).len() == 0);
    }
    // `i` is one past the last dot, or 0 where there is none
    if i <= 1 {
        return None;
    }
    if name.len() == 2 && name[0] == DOT {
        assert(name@ =~= seq![DOT, DOT]);
        return None;
    }
    assert(name@ != seq![DOT, DOT]) by {
        if name@ == seq![DOT, DOT] {
            assert(seq![DOT, DOT].len() == 2);
            assert(seq![DOT, DOT][0] == DOT);
        }
    }
    Some(copy_from(name, i))
}

/// The views of a list of names, in the same order.
pub open spec fn views(names: Seq<Vec<u8>>) -> Seq<Seq<u8>> {
    Seq::new(names.len(), |i: int| names[i]@)
}

/// The view of a name that may be absent.
pub open spec fn opt_view(name: Option<Vec<u8>>) -> Option<Seq<u8>> {
    match name {
        Some(n) => Some(n@),
        None => None,
    }
}

/// A list of names is sorted when each is at most every later one.
pub open spec fn sorted(names: Seq<Seq<u8>>) -> bool {
    forall|i: int, j: int| 0 <= i < j < names.len() ==> lex_le(names[i], names[j])
}

} // verus!
