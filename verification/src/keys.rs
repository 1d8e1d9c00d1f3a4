//! The keys by which names are ordered, and the order of keys.
//!
//! A key is a sequence of numbers. Keys are ordered as words are in a
//! dictionary: by the first position at which they differ, a proper prefix
//! first. A name that is absent has no key and comes before every name that
//! has one.

use vstd::prelude::*;
use vstd::utf8::encode_utf8;
use crate::params::Sort;

verus! {

/// `a` and `b` hold the same numbers at every position below `k`.
pub open spec fn same_prefix(a: Seq<int>, b: Seq<int>, k: int) -> bool {
    &&& 0 <= k <= a.len()
    &&& k <= b.len()
    &&& forall|j: int| 0 <= j < k ==> a[j] == b[j]
}

/// Position `k` shows that `a` comes before `b`: they agree below `k`, and at
/// `k` either `a` has ended and `b` has not, or `a` holds the smaller number.
pub open spec fn less_at(a: Seq<int>, b: Seq<int>, k: int) -> bool {
    &&& same_prefix(a, b, k)
    &&& k < b.len()
    &&& (k == a.len() || a[k] < b[k])
}

/// `a` comes before `b` in dictionary order.
pub open spec fn lex_less(a: Seq<int>, b: Seq<int>) -> bool {
    exists|k: int| less_at(a, b, k)
}

/// No key comes before itself.
pub proof fn lex_irreflexive(a: Seq<int>)
    ensures
        !lex_less(a, a),
{
    assert forall|k: int| !less_at(a, a, k) by {}
}

/// Dictionary order is transitive.
pub proof fn lex_transitive(a: Seq<int>, b: Seq<int>, c: Seq<int>)
    requires
        lex_less(a, b),
        lex_less(b, c),
    ensures
        lex_less(a, c),
{
    let k1 = choose|k: int| less_at(a, b, k);
    let k2 = choose|k: int| less_at(b, c, k);
    let k = if k1 <= k2 { k1 } else { k2 };
    assert(less_at(a, c, k));
}

/// Of two keys at most one comes before the other.
pub proof fn lex_asymmetric(a: Seq<int>, b: Seq<int>)
    requires
        lex_less(a, b),
    ensures
        !lex_less(b, a),
{
    if lex_less(b, a) {
        lex_transitive(a, b, a);
        lex_irreflexive(a);
    }
}

proof fn lex_total_from(a: Seq<int>, b: Seq<int>, k: int)
    requires
        same_prefix(a, b, k),
    ensures
        lex_less(a, b) || lex_less(b, a) || a == b,
    decreases a.len() - k,
{
    if k == a.len() {
        if k == b.len() {
            assert(a =~= b);
        } else {
            assert(less_at(a, b, k));
        }
    } else if k == b.len() {
        assert(less_at(b, a, k));
    } else if a[k] < b[k] {
        assert(less_at(a, b, k));
    } else if b[k] < a[k] {
        assert(less_at(b, a, k));
    } else {
        lex_total_from(a, b, k + 1);
    }
}

/// Two different keys are ordered one way or the other.
pub proof fn lex_total(a: Seq<int>, b: Seq<int>)
    ensures
        lex_less(a, b) || lex_less(b, a) || a == b,
{
    lex_total_from(a, b, 0);
}

/// The order of keys that may be absent: an absent key comes before every
/// present one, and present keys are in dictionary order.
pub open spec fn key_less(a: Option<Seq<int>>, b: Option<Seq<int>>) -> bool {
    match (a, b) {
        (None, Some(_)) => true,
        (Some(x), Some(y)) => lex_less(x, y),
        _ => false,
    }
}

/// No key comes before itself.
pub proof fn key_irreflexive(a: Option<Seq<int>>)
    ensures
        !key_less(a, a),
{
    if let Some(x) = a {
        lex_irreflexive(x);
    }
}

/// The order of keys is transitive.
pub proof fn key_transitive(a: Option<Seq<int>>, b: Option<Seq<int>>, c: Option<Seq<int>>)
    requires
        key_less(a, b),
        key_less(b, c),
    ensures
        key_less(a, c),
{
    if let (Some(x), Some(y), Some(z)) = (a, b, c) {
        lex_transitive(x, y, z);
    }
}

/// Of two keys at most one comes before the other.
pub proof fn key_asymmetric(a: Option<Seq<int>>, b: Option<Seq<int>>)
    requires
        key_less(a, b),
    ensures
        !key_less(b, a),
{
    if let (Some(x), Some(y)) = (a, b) {
        lex_asymmetric(x, y);
    }
}

/// Two different keys are ordered one way or the other.
pub proof fn key_total(a: Option<Seq<int>>, b: Option<Seq<int>>)
    ensures
        key_less(a, b) || key_less(b, a) || a == b,
{
    if let (Some(x), Some(y)) = (a, b) {
        lex_total(x, y);
    }
}

/// A key that ties with one that comes before `c` comes before `c` too, and
/// the same on the other side.
pub proof fn key_tie_transitive(a: Option<Seq<int>>, b: Option<Seq<int>>, c: Option<Seq<int>>)
    ensures
        !key_less(b, a) && key_less(b, c) ==> key_less(a, c) || a == b,
        key_less(a, b) && !key_less(c, b) ==> key_less(a, c),
        !key_less(b, a) && !key_less(c, b) ==> !key_less(c, a),
{
    key_total(a, b);
    key_total(b, c);
    key_total(a, c);
    if key_less(a, b) && key_less(b, c) {
        key_transitive(a, b, c);
    }
    if key_less(c, a) && key_less(a, b) {
        key_transitive(c, a, b);
    }
    if key_less(b, c) && key_less(c, a) {
        key_transitive(b, c, a);
    }
}

/// The numbers of a sequence of bytes.
pub open spec fn byte_numbers(bytes: Seq<u8>) -> Seq<int> {
    bytes.map_values(|b: u8| b as int)
}

/// The code points of a sequence of characters.
pub open spec fn code_points(chars: Seq<char>) -> Seq<int> {
    chars.map_values(|c: char| c as int)
}

/// The case-folded form of a text: what `unicase` compares in place of the
/// text itself, each character replaced by the characters of its Unicode
/// case folding.
pub uninterp spec fn case_folded(text: Seq<char>) -> Seq<char>;

/// The key of a name under an ordering. A name that is absent has none.
pub open spec fn sort_key(sort: Sort, name: Option<Seq<char>>) -> Option<Seq<int>> {
    match name {
        None => None,
        Some(text) => Some(
            match sort {
                Sort::Normal => byte_numbers(encode_utf8(text)),
                Sort::IgnoreCase => code_points(case_folded(text)),
            },
        ),
    }
}

/// Whether the bytes `a` come before the bytes `b` in dictionary order. This
/// is the order of `str`: texts are compared by the bytes of their UTF-8
/// form.
pub fn bytes_less(a: &[u8], b: &[u8]) -> (less: bool)
    ensures
        less == lex_less(byte_numbers(a@), byte_numbers(b@)),
{
    let ghost na = byte_numbers(a@);
    let ghost nb = byte_numbers(b@);
    let mut i: usize = 0;
    while i < a.len() && i < b.len()
        invariant
            na == byte_numbers(a@),
            nb == byte_numbers(b@),
            same_prefix(na, nb, i as int),
        decreases a.len() - i,
    {
        if a[i] != b[i] {
            proof {
                if a[i as int] < b[i as int] {
                    assert(less_at(na, nb, i as int));
                } else {
                    assert(less_at(nb, na, i as int));
                    lex_asymmetric(nb, na);
                }
            }
            return a[i] < b[i];
        }
        i += 1;
    }
    proof {
        if i < b.len() {
            assert(less_at(na, nb, i as int));
        } else if i < a.len() {
            assert(less_at(nb, na, i as int));
            lex_asymmetric(nb, na);
        } else {
            assert(na =~= nb);
            lex_irreflexive(na);
        }
    }
    i < b.len()
}

} // verus!
