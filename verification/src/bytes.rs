//! Small byte-sequence helpers shared by the codec modules.

use vstd::prelude::*;
use vstd::slice::*;

verus! {

/// `n` zero bytes.
pub open spec fn zero_bytes(n: nat) -> Seq<u8> {
    Seq::new(n, |i| 0u8)
}

/// `n` ASCII space bytes.
pub open spec fn space_bytes(n: nat) -> Seq<u8> {
    Seq::new(n, |i| 32u8)
}

/// Allocates `n` zero bytes.
pub fn zeros(n: usize) -> (r: Vec<u8>)
    ensures
        r@ =~= zero_bytes(n as nat),
{
    let mut r: Vec<u8> = Vec::new();
    let mut i: usize = 0;
    while i < n
        invariant
            0 <= i <= n,
            r@ =~= zero_bytes(i as nat),
        decreases n - i,
    {
        r.push(0);
        i = i + 1;
        proof {
            assert(r@ =~= zero_bytes(i as nat));
        }
    }
    r
}

/// Whether two byte strings hold the same bytes.
pub fn bytes_eq(a: &[u8], b: &[u8]) -> (r: bool)
    ensures
        r == (a@ == b@),
{
    if a.len() != b.len() {
        proof {
            assert(a@.len() != b@.len());
        }
        return false;
    }
    let n = a.len();
    let mut i: usize = 0;
    while i < n
        invariant
            0 <= i <= n,
            n == a@.len() == b@.len(),
            forall|j: int| 0 <= j < i ==> a@[j] == b@[j],
        decreases n - i,
    {
        if a[i] != b[i] {
            return false;
        }
        i = i + 1;
    }
    proof {
        assert(a@ =~= b@);
    }
    true
}

/// Whether every byte is zero.
pub fn is_all_zero(s: &[u8]) -> (r: bool)
    ensures
        r == (s@ =~= zero_bytes(s@.len())),
{
    let n = s.len();
    let mut i: usize = 0;
    while i < n
        invariant
            0 <= i <= n,
            n == s@.len(),
            forall|j: int| 0 <= j < i ==> s@[j] == 0,
        decreases n - i,
    {
        if s[i] != 0 {
            proof {
                assert(s@[i as int] != zero_bytes(s@.len())[i as int]);
            }
            return false;
        }
        i = i + 1;
    }
    proof {
        assert(s@ =~= zero_bytes(s@.len()));
    }
    true
}

/// A byte string without NUL: storable in a NUL-terminated header field.
pub open spec fn nul_free(s: Seq<u8>) -> bool {
    forall|i: int| 0 <= i < s.len() ==> s[i] != 0
}

/// Whether no byte is NUL.
pub fn check_nul_free(s: &[u8]) -> (r: bool)
    ensures
        r == nul_free(s@),
{
    let n = s.len();
    let mut i: usize = 0;
    while i < n
        invariant
            0 <= i <= n,
            n == s@.len(),
            forall|j: int| 0 <= j < i ==> s@[j] != 0,
        decreases n - i,
    {
        if s[i] == 0 {
            return false;
        }
        i = i + 1;
    }
    true
}

/// Sum of a run of spaces.
pub proof fn lemma_sum_space(n: nat)
    ensures
        sum_bytes(space_bytes(n)) == 32 * n,
    decreases n,
{
    if n > 0 {
        assert(space_bytes(n).drop_last() =~= space_bytes((n - 1) as nat));
        lemma_sum_space((n - 1) as nat);
    }
}

/// Length of the initial run of non-NUL bytes: how much of a
/// NUL-terminated field is in use.
pub open spec fn cstr_len(s: Seq<u8>) -> nat
    decreases s.len(),
{
    if s.len() == 0 || s[0] == 0 {
        0
    } else {
        1 + cstr_len(s.drop_first())
    }
}

/// The bytes of a NUL-terminated field before its first NUL.
pub open spec fn cstr(s: Seq<u8>) -> Seq<u8> {
    s.take(cstr_len(s) as int)
}

pub proof fn lemma_cstr_len(s: Seq<u8>)
    ensures
        cstr_len(s) <= s.len(),
        forall|i: int| 0 <= i < cstr_len(s) ==> s[i] != 0,
        cstr_len(s) < s.len() ==> s[cstr_len(s) as int] == 0,
    decreases s.len(),
{
    if s.len() > 0 && s[0] != 0 {
        lemma_cstr_len(s.drop_first());
        assert forall|i: int| 0 <= i < cstr_len(s) implies s[i] != 0 by {
            if i > 0 {
                assert(s.drop_first()[i - 1] == s[i]);
            }
        }
        if cstr_len(s) < s.len() {
            assert(s[cstr_len(s) as int] == s.drop_first()[cstr_len(s.drop_first()) as int]);
        }
    }
}

/// The run length matches a stopping point found by scanning.
pub proof fn lemma_cstr_len_exact(s: Seq<u8>, n: nat)
    requires
        n <= s.len(),
        forall|j: int| 0 <= j < n ==> s[j] != 0,
        n < s.len() ==> s[n as int] == 0,
    ensures
        cstr_len(s) == n,
    decreases s.len(),
{
    if s.len() > 0 && s[0] != 0 {
        lemma_cstr_len_exact(s.drop_first(), (n - 1) as nat);
    }
}

/// A NUL-free string padded with zeros up to a field width reads back
/// exactly.
pub proof fn lemma_cstr_of_padded(s: Seq<u8>, w: nat)
    requires
        s.len() <= w,
        forall|i: int| 0 <= i < s.len() ==> s[i] != 0,
    ensures
        cstr(s + zero_bytes((w - s.len()) as nat)) == s,
{
    let t = s + zero_bytes((w - s.len()) as nat);
    assert forall|j: int| 0 <= j < s.len() implies t[j] != 0 by {
        assert(t[j] == s[j]);
    }
    if s.len() < w {
        assert(t[s.len() as int] == 0);
    }
    lemma_cstr_len_exact(t, s.len());
    assert(t.take(s.len() as int) =~= s);
}

/// Reads the used part of a NUL-terminated field.
pub fn read_cstr(s: &[u8]) -> (r: Vec<u8>)
    ensures
        r@ == cstr(s@),
{
    let n = s.len();
    let mut i: usize = 0;
    let mut r: Vec<u8> = Vec::new();
    while i < n && s[i] != 0
        invariant
            0 <= i <= n,
            n == s@.len(),
            forall|j: int| 0 <= j < i ==> s@[j] != 0,
            r@ =~= s@.take(i as int),
        decreases n - i,
    {
        let b = s[i];
        r.push(b);
        i = i + 1;
        proof {
            assert(r@ =~= s@.take(i as int));
        }
    }
    proof {
        lemma_cstr_len_exact(s@, i as nat);
    }
    r
}

/// Sum of the byte values of a sequence.
pub open spec fn sum_bytes(s: Seq<u8>) -> nat
    decreases s.len(),
{
    if s.len() == 0 {
        0
    } else {
        sum_bytes(s.drop_last()) + (s.last() as nat)
    }
}

pub proof fn lemma_sum_bytes_bound(s: Seq<u8>)
    ensures
        sum_bytes(s) <= 255 * s.len(),
    decreases s.len(),
{
    if s.len() > 0 {
        lemma_sum_bytes_bound(s.drop_last());
    }
}

/// Summation distributes over concatenation.
pub proof fn lemma_sum_bytes_concat(a: Seq<u8>, b: Seq<u8>)
    ensures
        sum_bytes(a + b) == sum_bytes(a) + sum_bytes(b),
    decreases b.len(),
{
    if b.len() == 0 {
        assert(a + b =~= a);
    } else {
        assert((a + b).drop_last() =~= a + b.drop_last());
        assert((a + b).last() == b.last());
        lemma_sum_bytes_concat(a, b.drop_last());
    }
}

/// Changing one byte changes the sum by exactly the difference of the
/// two bytes.
pub proof fn lemma_sum_bytes_update(s: Seq<u8>, i: int, v: u8)
    requires
        0 <= i < s.len(),
    ensures
        sum_bytes(s.update(i, v)) + s[i] == sum_bytes(s) + v,
    decreases s.len(),
{
    let t = s.update(i, v);
    if i == s.len() - 1 {
        assert(t.drop_last() =~= s.drop_last());
        assert(t.last() == v);
    } else {
        assert(t.drop_last() =~= s.drop_last().update(i, v));
        assert(t.last() == s.last());
        lemma_sum_bytes_update(s.drop_last(), i, v);
    }
}

/// Sums the bytes of a slice.
pub fn sum_slice(s: &[u8]) -> (r: u64)
    requires
        s@.len() <= 100000,
    ensures
        r == sum_bytes(s@),
{
    let n = s.len();
    let mut i: usize = 0;
    let mut r: u64 = 0;
    while i < n
        invariant
            0 <= i <= n,
            n == s@.len() <= 100000,
            r == sum_bytes(s@.take(i as int)),
            r <= 255 * i,
        decreases n - i,
    {
        proof {
            let t = s@.take(i + 1);
            assert(t.drop_last() =~= s@.take(i as int));
            assert(t.last() == s@[i as int]);
        }
        r = r + (s[i] as u64);
        i = i + 1;
    }
    proof {
        assert(s@.take(n as int) =~= s@);
    }
    r
}

/// Appends a copy of a slice to a vector.
pub fn push_bytes(dst: &mut Vec<u8>, src: &[u8])
    ensures
        final(dst)@ == old(dst)@ + src@,
{
    let mut v = slice_to_vec(src);
    dst.append(&mut v);
}

} // verus!
