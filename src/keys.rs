//! Keys: byte-wise lexicographic order and the request-level validity rule.
use std::cmp::Ordering;
use vstd::prelude::*;
use vstd::string::StringSliceAdditionalSpecFns;

verus! {

/// Longest key accepted at the request surface, in bytes.
pub const MAX_KEY_LEN: usize = 10;

/// Strict lexicographic order on byte strings (a proper prefix is smaller).
pub open spec fn bytes_lt(a: Seq<u8>, b: Seq<u8>) -> bool
    decreases a.len(),
{
    if b.len() == 0 {
        false
    } else if a.len() == 0 {
        true
    } else if a[0] != b[0] {
        a[0] < b[0]
    } else {
        bytes_lt(a.drop_first(), b.drop_first())
    }
}

/// No byte string precedes itself.
pub proof fn lemma_lt_irreflexive(a: Seq<u8>)
    ensures
        !bytes_lt(a, a),
    decreases a.len(),
{
    if a.len() > 0 {
        lemma_lt_irreflexive(a.drop_first());
    }
}

/// Of two byte strings, at most one precedes the other.
pub proof fn lemma_lt_asymmetric(a: Seq<u8>, b: Seq<u8>)
    ensures
        bytes_lt(a, b) ==> !bytes_lt(b, a),
    decreases a.len(),
{
    if a.len() > 0 && b.len() > 0 && a[0] == b[0] {
        lemma_lt_asymmetric(a.drop_first(), b.drop_first());
    }
}

/// The order is transitive.
pub proof fn lemma_lt_transitive(a: Seq<u8>, b: Seq<u8>, c: Seq<u8>)
    requires
        bytes_lt(a, b),
        bytes_lt(b, c),
    ensures
        bytes_lt(a, c),
    decreases a.len(),
{
    if a.len() > 0 && a[0] == b[0] && b[0] == c[0] {
        lemma_lt_transitive(a.drop_first(), b.drop_first(), c.drop_first());
    }
}

/// Any two byte strings are equal or ordered one way.
pub proof fn lemma_lt_total(a: Seq<u8>, b: Seq<u8>)
    ensures
        a == b || bytes_lt(a, b) || bytes_lt(b, a),
    decreases a.len(),
{
    if a.len() > 0 && b.len() > 0 && a[0] == b[0] {
        lemma_lt_total(a.drop_first(), b.drop_first());
        if a.drop_first() == b.drop_first() {
            assert(a.drop_first().len() == a.len() - 1);
            assert(b.drop_first().len() == b.len() - 1);
            assert(a.len() == b.len());
            assert(a =~= b) by {
                assert forall|i: int| 0 <= i < a.len() implies a[i] == b[i] by {
                    if i > 0 {
                        assert(a[i] == a.drop_first()[i - 1]);
                        assert(b[i] == b.drop_first()[i - 1]);
                    }
                }
            }
        }
    } else if a.len() == 0 && b.len() == 0 {
        assert(a =~= b);
    }
}

pub broadcast proof fn lemma_lt_no_cycle(a: Seq<u8>, b: Seq<u8>)
    ensures
        #[trigger] bytes_lt(a, b) ==> !bytes_lt(b, a) && a != b,
{
    lemma_lt_asymmetric(a, b);
    lemma_lt_irreflexive(a);
}

pub broadcast proof fn lemma_lt_chain(a: Seq<u8>, b: Seq<u8>, c: Seq<u8>)
    ensures
        #[trigger] bytes_lt(a, b) && #[trigger] bytes_lt(b, c) ==> bytes_lt(a, c),
{
    if bytes_lt(a, b) && bytes_lt(b, c) {
        lemma_lt_transitive(a, b, c);
    }
}

pub broadcast group group_bytes_lt {
    lemma_lt_no_cycle,
    lemma_lt_chain,
}

proof fn lemma_lt_skip_step(a: Seq<u8>, b: Seq<u8>, i: int)
    requires
        0 <= i < a.len(),
        i < b.len(),
        a[i] == b[i],
    ensures
        bytes_lt(a.skip(i), b.skip(i)) == bytes_lt(a.skip(i + 1), b.skip(i + 1)),
        (a.skip(i) == b.skip(i)) == (a.skip(i + 1) == b.skip(i + 1)),
{
    assert(a.skip(i).drop_first() =~= a.skip(i + 1));
    assert(b.skip(i).drop_first() =~= b.skip(i + 1));
    if a.skip(i + 1) == b.skip(i + 1) {
        assert(a.skip(i) =~= b.skip(i)) by {
            assert forall|j: int| 0 <= j < a.skip(i).len() implies a.skip(i)[j] == b.skip(i)[j] by {
                if j > 0 {
                    assert(a.skip(i)[j] == a.skip(i + 1)[j - 1]);
                    assert(b.skip(i)[j] == b.skip(i + 1)[j - 1]);
                }
            }
        }
    }
    if a.skip(i) == b.skip(i) {
        assert(a.skip(i + 1) =~= a.skip(i).drop_first());
    }
}

/// Compares two byte strings in lexicographic order.
pub fn compare_bytes(a: &[u8], b: &[u8]) -> (r: Ordering)
    ensures
        (r == Ordering::Less) == bytes_lt(a@, b@),
        (r == Ordering::Equal) == (a@ == b@),
        (r == Ordering::Greater) == bytes_lt(b@, a@),
{
    proof {
        assert(a@.skip(0) =~= a@);
        assert(b@.skip(0) =~= b@);
        lemma_lt_irreflexive(a@);
        lemma_lt_asymmetric(a@, b@);
        lemma_lt_total(a@, b@);
    }
    let mut i: usize = 0;
    while i < a.len() && i < b.len()
        invariant
            i <= a@.len(),
            i <= b@.len(),
            bytes_lt(a@, b@) == bytes_lt(a@.skip(i as int), b@.skip(i as int)),
            bytes_lt(b@, a@) == bytes_lt(b@.skip(i as int), a@.skip(i as int)),
            (a@ == b@) == (a@.skip(i as int) == b@.skip(i as int)),
        decreases a@.len() - i,
    {
        if a[i] < b[i] {
            assert(a@ != b@) by {
                if a@ == b@ {
                    assert(a@[i as int] == b@[i as int]);
                }
            }
            return Ordering::Less;
        } else if a[i] > b[i] {
            assert(a@ != b@) by {
                if a@ == b@ {
                    assert(a@[i as int] == b@[i as int]);
                }
            }
            return Ordering::Greater;
        }
        proof {
            lemma_lt_skip_step(a@, b@, i as int);
            lemma_lt_skip_step(b@, a@, i as int);
        }
        i = i + 1;
    }
    if a.len() < b.len() {
        assert(a@ != b@);
        Ordering::Less
    } else if a.len() > b.len() {
        assert(a@ != b@);
        Ordering::Greater
    } else {
        assert(a@.skip(i as int) =~= b@.skip(i as int));
        Ordering::Equal
    }
}

/// An ASCII letter or digit.
pub open spec fn is_alnum(b: u8) -> bool {
    (48 <= b <= 57) || (65 <= b <= 90) || (97 <= b <= 122)
}

/// A key that the request surface accepts: 1 to `MAX_KEY_LEN` bytes, all
/// ASCII letters or digits.
pub open spec fn valid_key(k: Seq<u8>) -> bool {
    &&& 1 <= k.len() <= MAX_KEY_LEN
    &&& forall|i: int| 0 <= i < k.len() ==> is_alnum(#[trigger] k[i])
}

/// Tests one byte for being an ASCII letter or digit.
pub fn is_alnum_byte(b: u8) -> (r: bool)
    ensures
        r == is_alnum(b),
{
    (48 <= b && b <= 57) || (65 <= b && b <= 90) || (97 <= b && b <= 122)
}

/// Tests that every byte is an ASCII letter or digit.
pub fn all_alnum(bytes: &[u8]) -> (r: bool)
    ensures
        r == (forall|i: int| 0 <= i < bytes@.len() ==> is_alnum(#[trigger] bytes@[i])),
{
    let mut i: usize = 0;
    while i < bytes.len()
        invariant
            i <= bytes@.len(),
            forall|j: int| 0 <= j < i ==> is_alnum(#[trigger] bytes@[j]),
        decreases bytes@.len() - i,
    {
        if !is_alnum_byte(bytes[i]) {
            return false;
        }
        i = i + 1;
    }
    true
}

/// Tests a key against the request surface's rule.
pub fn is_valid_key(key: &str) -> (r: bool)
    ensures
        r == valid_key(key.spec_bytes()),
{
    let bytes = key.as_bytes();
    if bytes.len() == 0 || bytes.len() > MAX_KEY_LEN {
        return false;
    }
    all_alnum(bytes)
}

} // verus!
