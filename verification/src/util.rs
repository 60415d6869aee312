//! Small byte-sequence helpers shared by the codec: first occurrence of a
//! byte, subrange copies, and digest-format checks.

use vstd::prelude::*;

verus! {

/// Index of the first occurrence of `b` in `s`, or -1 if `b` does not occur.
pub open spec fn first_byte(s: Seq<u8>, b: u8) -> int
    decreases s.len(),
{
    if s.len() == 0 {
        -1
    } else if s[0] == b {
        0
    } else if first_byte(s.drop_first(), b) == -1 {
        -1
    } else {
        1 + first_byte(s.drop_first(), b)
    }
}

/// What `first_byte` returns: -1 exactly when `b` does not occur, otherwise
/// the least index holding `b`.
pub proof fn lemma_first_byte(s: Seq<u8>, b: u8)
    ensures
        first_byte(s, b) == -1 ==> forall|i: int| 0 <= i < s.len() ==> s[i] != b,
        first_byte(s, b) != -1 ==> 0 <= first_byte(s, b) < s.len() && s[first_byte(s, b)] == b
            && forall|i: int| 0 <= i < first_byte(s, b) ==> s[i] != b,
    decreases s.len(),
{
    if s.len() > 0 && s[0] != b {
        lemma_first_byte(s.drop_first(), b);
        let r = first_byte(s.drop_first(), b);
        if r == -1 {
            assert forall|i: int| 0 <= i < s.len() implies s[i] != b by {
                if i > 0 {
                    assert(s[i] == s.drop_first()[i - 1]);
                }
            }
        } else {
            assert(s[r + 1] == s.drop_first()[r]);
            assert forall|i: int| 0 <= i < first_byte(s, b) implies s[i] != b by {
                if i > 0 {
                    assert(s[i] == s.drop_first()[i - 1]);
                }
            }
        }
    }
}

/// If `i` is an occurrence of `b` with none before it, it is the first.
pub proof fn lemma_first_byte_is(s: Seq<u8>, b: u8, i: int)
    requires
        0 <= i < s.len(),
        s[i] == b,
        forall|j: int| 0 <= j < i ==> s[j] != b,
    ensures
        first_byte(s, b) == i,
{
    lemma_first_byte(s, b);
}

/// If `b` occurs nowhere in `s`, there is no first occurrence.
pub proof fn lemma_first_byte_none(s: Seq<u8>, b: u8)
    requires
        forall|j: int| 0 <= j < s.len() ==> s[j] != b,
    ensures
        first_byte(s, b) == -1,
{
    lemma_first_byte(s, b);
}

/// First index at or after `from` where `s` holds `b`, if any.
pub fn find_byte(s: &Vec<u8>, from: usize, b: u8) -> (r: Option<usize>)
    requires
        from <= s@.len(),
    ensures
        r matches Some(i) ==> from <= i < s@.len() && s@[i as int] == b && forall|j: int|
            from <= j < i ==> s@[j] != b,
        r is None ==> forall|j: int| from <= j < s@.len() ==> s@[j] != b,
{
    let mut i: usize = from;
    while i < s.len()
        invariant
            from <= i <= s@.len(),
            forall|j: int| from <= j < i ==> s@[j] != b,
        decreases s@.len() - i,
    {
        if s[i] == b {
            return Some(i);
        }
        i = i + 1;
    }
    None
}

/// The bytes of `s` from `a` (inclusive) to `b` (exclusive), copied out.
pub fn copy_range(s: &Vec<u8>, a: usize, b: usize) -> (r: Vec<u8>)
    requires
        a <= b <= s@.len(),
    ensures
        r@ == s@.subrange(a as int, b as int),
{
    let mut r: Vec<u8> = Vec::new();
    let mut i: usize = a;
    while i < b
        invariant
            a <= i <= b <= s@.len(),
            r@ == s@.subrange(a as int, i as int),
        decreases b - i,
    {
        r.push(s[i]);
        proof {
            assert(s@.subrange(a as int, i as int).push(s@[i as int]) =~= s@.subrange(
                a as int,
                i + 1,
            ));
        }
        i = i + 1;
    }
    r
}

/// Whether two byte vectors hold the same bytes.
pub fn vec_eq(a: &Vec<u8>, b: &Vec<u8>) -> (r: bool)
    ensures
        r == (a@ == b@),
{
    if a.len() != b.len() {
        return false;
    }
    let mut i: usize = 0;
    while i < a.len()
        invariant
            a@.len() == b@.len(),
            i <= a@.len(),
            forall|j: int| 0 <= j < i ==> a@[j] == b@[j],
        decreases a@.len() - i,
    {
        if a[i] != b[i] {
            return false;
        }
        i = i + 1;
    }
    proof {
        assert(a@ =~= b@);
    }
    true
}

/// Whether `s` is the external form of a digest: exactly 40 lowercase hex
/// digit bytes.
pub fn is_valid_sha(s: &Vec<u8>) -> (r: bool)
    ensures
        r == crate::types::is_hex40(s@),
{
    if s.len() != 40 {
        return false;
    }
    let mut i: usize = 0;
    while i < s.len()
        invariant
            i <= s@.len(),
            s@.len() == 40,
            forall|j: int| 0 <= j < i ==> crate::types::is_lower_hex_digit(#[trigger] s@[j]),
        decreases s@.len() - i,
    {
        let c = s[i];
        if !((48 <= c && c <= 57) || (97 <= c && c <= 102)) {
            return false;
        }
        i = i + 1;
    }
    true
}

} // verus!
