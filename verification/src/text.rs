//! Text as the index builder sees it: the lowercase sort key of a name, the
//! grapheme cluster a key starts with, and the byte-wise order of keys.

use unicode_segmentation::UnicodeSegmentation;
use vstd::prelude::*;
use vstd::string::*;

verus! {

/// The lowercase form of `s`, as the standard library's `str::to_lowercase`
/// gives it.
pub uninterp spec fn lowercase_of(s: Seq<char>) -> Seq<char>;

/// The lowercase form of `s`.
///
/// Calls `str::to_lowercase` of the standard library, which maps each
/// character by the Unicode lowercase tables. The contract gives that result a
/// name and says nothing more of it.
#[verifier::external_body]
pub(crate) fn to_lowercase(s: &str) -> (r: String)
    ensures
        r@ == lowercase_of(s@),
{
    s.to_lowercase()
}

/// The first extended grapheme cluster of the non-empty string `s`, as
/// unicode-segmentation finds it.
pub uninterp spec fn first_grapheme(s: Seq<char>) -> Seq<char>;

/// The first extended grapheme cluster of `s`, or `None` for the empty string.
///
/// Calls `UnicodeSegmentation::graphemes` of unicode-segmentation with
/// `is_extended` set, and `next` once on the iterator. That returns `None`
/// where the string is empty, and else the slice from the start of the string
/// to the next cluster boundary, which lies after at least one character. The
/// contract names the cluster and says only that it is a non-empty prefix.
#[verifier::external_body]
pub(crate) fn leading_grapheme<'a>(s: &'a str) -> (r: Option<&'a str>)
    ensures
        s@.len() == 0 ==> r is None,
        s@.len() > 0 ==> r is Some,
        r matches Some(g) ==> {
            &&& g@ == first_grapheme(s@)
            &&& 0 < g@.len() <= s@.len()
            &&& g@ == s@.take(g@.len() as int)
        },
{
    s.graphemes(true).next()
}

/// Byte strings in dictionary order: `a` comes no later than `b`.
pub open spec fn bytes_le(a: Seq<u8>, b: Seq<u8>) -> bool
    decreases a.len(),
{
    if a.len() == 0 {
        true
    } else if b.len() == 0 {
        false
    } else if a[0] != b[0] {
        a[0] < b[0]
    } else {
        bytes_le(a.skip(1), b.skip(1))
    }
}

/// Byte strings in dictionary order: `a` comes strictly before `b`.
pub open spec fn bytes_lt(a: Seq<u8>, b: Seq<u8>) -> bool {
    !bytes_le(b, a)
}

/// Every byte string comes no later than itself.
pub proof fn lemma_bytes_le_reflexive(a: Seq<u8>)
    ensures
        bytes_le(a, a),
    decreases a.len(),
{
    if a.len() > 0 {
        lemma_bytes_le_reflexive(a.skip(1));
    }
}

/// Of two byte strings one comes no later than the other.
pub proof fn lemma_bytes_le_total(a: Seq<u8>, b: Seq<u8>)
    ensures
        bytes_le(a, b) || bytes_le(b, a),
    decreases a.len(),
{
    if a.len() > 0 && b.len() > 0 && a[0] == b[0] {
        lemma_bytes_le_total(a.skip(1), b.skip(1));
    }
}

/// Two byte strings of which each comes no later than the other are equal.
pub proof fn lemma_bytes_le_antisymmetric(a: Seq<u8>, b: Seq<u8>)
    requires
        bytes_le(a, b),
        bytes_le(b, a),
    ensures
        a == b,
    decreases a.len(),
{
    if a.len() == 0 || b.len() == 0 {
        assert(a =~= b);
    } else {
        lemma_bytes_le_antisymmetric(a.skip(1), b.skip(1));
        assert(a =~= seq![a[0]] + a.skip(1));
        assert(b =~= seq![b[0]] + b.skip(1));
    }
}

/// The order is transitive.
pub proof fn lemma_bytes_le_transitive(a: Seq<u8>, b: Seq<u8>, c: Seq<u8>)
    requires
        bytes_le(a, b),
        bytes_le(b, c),
    ensures
        bytes_le(a, c),
    decreases a.len(),
{
    if a.len() > 0 && b.len() > 0 && c.len() > 0 && a[0] == b[0] && b[0] == c[0] {
        lemma_bytes_le_transitive(a.skip(1), b.skip(1), c.skip(1));
    }
}

/// Whether the key `a` sorts no later than the key `b`: their UTF-8 bytes are
/// compared in dictionary order.
pub fn key_le(a: &str, b: &str) -> (r: bool)
    ensures
        r == bytes_le(a.spec_bytes(), b.spec_bytes()),
{
    let x = a.as_bytes();
    let y = b.as_bytes();
    let mut i: usize = 0;
    assert(x@.skip(0) =~= x@ && y@.skip(0) =~= y@);
    while i < x.len() && i < y.len()
        invariant
            x@ == a.spec_bytes(),
            y@ == b.spec_bytes(),
            i <= x@.len(),
            i <= y@.len(),
            bytes_le(x@, y@) == bytes_le(x@.skip(i as int), y@.skip(i as int)),
        decreases x@.len() - i,
    {
        let ghost xs = x@.skip(i as int);
        let ghost ys = y@.skip(i as int);
        assert(xs.len() > 0 && ys.len() > 0);
        assert(xs[0] == x@[i as int] && ys[0] == y@[i as int]);
        if x[i] != y[i] {
            return x[i] < y[i];
        }
        assert(xs.skip(1) =~= x@.skip(i + 1));
        assert(ys.skip(1) =~= y@.skip(i + 1));
        i = i + 1;
    }
    i == x.len()
}

} // verus!
