//! Case-insensitive ordering of message names: the lowercase folding relied
//! on for sort keys, and a lexicographic order on character sequences with
//! the lemmas the sorting proofs need.

use vstd::prelude::*;

verus! {

/// What `str::to_lowercase` returns for a given character sequence.
pub uninterp spec fn lower_of(s: Seq<char>) -> Seq<char>;

/// Relies on str::to_lowercase: the returned lowercase equivalent depends on
/// the characters of `s` alone.
#[verifier::external_body]
pub(crate) fn to_lower(s: &str) -> (r: String)
    ensures
        r@ == lower_of(s@),
{
    s.to_lowercase()
}

/// Lexicographic "less than or equal" on character sequences, comparing
/// characters by code point.
pub open spec fn key_le(a: Seq<char>, b: Seq<char>) -> bool
    decreases a.len(),
{
    if a.len() == 0 {
        true
    } else if b.len() == 0 {
        false
    } else if a[0] == b[0] {
        key_le(a.subrange(1, a.len() as int), b.subrange(1, b.len() as int))
    } else {
        a[0] < b[0]
    }
}

/// Any two keys are comparable.
pub proof fn lemma_key_le_total(a: Seq<char>, b: Seq<char>)
    ensures
        key_le(a, b) || key_le(b, a),
    decreases a.len(),
{
    if a.len() != 0 && b.len() != 0 {
        if a[0] == b[0] {
            lemma_key_le_total(a.subrange(1, a.len() as int), b.subrange(1, b.len() as int));
        } else {
            assert(a[0] < b[0] || b[0] < a[0]);
        }
    }
}

/// Keys below each other are equal.
pub proof fn lemma_key_le_antisym(a: Seq<char>, b: Seq<char>)
    requires
        key_le(a, b),
        key_le(b, a),
    ensures
        a == b,
    decreases a.len(),
{
    if a.len() == 0 {
        assert(b.len() == 0);
        assert(a =~= b);
    } else {
        assert(b.len() != 0);
        if a[0] == b[0] {
            let sa = a.subrange(1, a.len() as int);
            let sb = b.subrange(1, b.len() as int);
            lemma_key_le_antisym(sa, sb);
            assert(sa.len() == a.len() - 1);
            assert(sb.len() == b.len() - 1);
            assert forall|i: int| 0 <= i < a.len() implies a[i] == b[i] by {
                if i >= 1 {
                    assert(a[i] == sa[i - 1]);
                    assert(b[i] == sb[i - 1]);
                }
            }
            assert(a =~= b);
        } else {
            assert(a[0] < b[0] || b[0] < a[0]);
        }
    }
}

/// The order is transitive.
pub proof fn lemma_key_le_trans(a: Seq<char>, b: Seq<char>, c: Seq<char>)
    requires
        key_le(a, b),
        key_le(b, c),
    ensures
        key_le(a, c),
    decreases a.len(),
{
    if a.len() != 0 && b.len() != 0 && c.len() != 0 && a[0] == b[0] && b[0] == c[0] {
        lemma_key_le_trans(
            a.subrange(1, a.len() as int),
            b.subrange(1, b.len() as int),
            c.subrange(1, c.len() as int),
        );
    }
}

/// Decides equality of two strings character by character.
pub(crate) fn str_eq(a: &str, b: &str) -> (r: bool)
    ensures
        r == (a@ == b@),
{
    let alen = a.unicode_len();
    let blen = b.unicode_len();
    if alen != blen {
        return false;
    }
    let mut i: usize = 0;
    while i < alen
        invariant
            i <= alen,
            alen == a@.len(),
            alen == b@.len(),
            forall|j: int| 0 <= j < i ==> a@[j] == b@[j],
        decreases alen - i,
    {
        if a.get_char(i) != b.get_char(i) {
            return false;
        }
        i = i + 1;
    }
    proof {
        assert(a@ =~= b@);
    }
    true
}

/// Compares two strings lexicographically by code point.
pub(crate) fn lex_le(a: &str, b: &str) -> (r: bool)
    ensures
        r == key_le(a@, b@),
{
    let alen = a.unicode_len();
    let blen = b.unicode_len();
    let mut i: usize = 0;
    proof {
        assert(a@.subrange(0, alen as int) =~= a@);
        assert(b@.subrange(0, blen as int) =~= b@);
    }
    loop
        invariant
            i <= alen,
            i <= blen,
            alen == a@.len(),
            blen == b@.len(),
            key_le(a@, b@) == key_le(
                a@.subrange(i as int, alen as int),
                b@.subrange(i as int, blen as int),
            ),
        decreases alen - i,
    {
        let ghost ra = a@.subrange(i as int, alen as int);
        let ghost rb = b@.subrange(i as int, blen as int);
        if i == alen {
            assert(ra.len() == 0);
            return true;
        }
        if i == blen {
            assert(ra.len() != 0 && rb.len() == 0);
            return false;
        }
        let ca = a.get_char(i);
        let cb = b.get_char(i);
        assert(ra[0] == ca && rb[0] == cb);
        if ca == cb {
            proof {
                assert(ra.subrange(1, ra.len() as int) =~= a@.subrange(
                    i + 1 as int,
                    alen as int,
                ));
                assert(rb.subrange(1, rb.len() as int) =~= b@.subrange(
                    i + 1 as int,
                    blen as int,
                ));
            }
            i = i + 1;
        } else {
            return ca < cb;
        }
    }
}

} // verus!
