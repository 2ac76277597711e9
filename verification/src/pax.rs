//! PAX extended-header records.
//!
//! A PAX extension block's payload is a sequence of records, each of the
//! form `"<len> <key>=<value>\n"` where `<len>` is the decimal byte length
//! of the whole record, its own digits included.  The reader interprets
//! the `path` and `linkpath` keys; every other key is carried through as
//! opaque metadata.

use vstd::prelude::*;

verus! {

/// ASCII '0' through '9'.
pub open spec fn is_dec_digit(b: u8) -> bool {
    48 <= b <= 57
}

/// Value of a sequence of decimal digit bytes, most significant first.
pub open spec fn dec_value(s: Seq<u8>) -> nat
    decreases s.len(),
{
    if s.len() == 0 {
        0
    } else {
        dec_value(s.drop_last()) * 10 + ((s.last() - 48) as nat)
    }
}

/// Number of leading decimal digit bytes.
pub open spec fn leading_dec_digits(s: Seq<u8>) -> nat
    decreases s.len(),
{
    if s.len() == 0 || !is_dec_digit(s[0]) {
        0
    } else {
        1 + leading_dec_digits(s.drop_first())
    }
}

pub proof fn lemma_leading_dec_digits(s: Seq<u8>)
    ensures
        leading_dec_digits(s) <= s.len(),
        forall|i: int| 0 <= i < leading_dec_digits(s) ==> is_dec_digit(#[trigger] s[i]),
        leading_dec_digits(s) < s.len() ==> !is_dec_digit(s[leading_dec_digits(s) as int]),
    decreases s.len(),
{
    if s.len() > 0 && is_dec_digit(s[0]) {
        lemma_leading_dec_digits(s.drop_first());
        assert forall|i: int| 0 <= i < leading_dec_digits(s) implies is_dec_digit(
            #[trigger] s[i],
        ) by {
            if i > 0 {
                assert(s.drop_first()[i - 1] == s[i]);
            }
        }
        if leading_dec_digits(s) < s.len() {
            assert(s[leading_dec_digits(s) as int] == s.drop_first()[leading_dec_digits(
                s.drop_first(),
            ) as int]);
        }
    }
}

/// The digit count matches a stopping point found by scanning.
pub proof fn lemma_leading_dec_digits_exact(s: Seq<u8>, n: nat)
    requires
        n <= s.len(),
        forall|j: int| 0 <= j < n ==> is_dec_digit(#[trigger] s[j]),
        n < s.len() ==> !is_dec_digit(s[n as int]),
    ensures
        leading_dec_digits(s) == n,
    decreases s.len(),
{
    if s.len() > 0 && is_dec_digit(s[0]) {
        lemma_leading_dec_digits_exact(s.drop_first(), (n - 1) as nat);
    }
}

/// A decimal value never shrinks as more digits are appended.
pub proof fn lemma_dec_value_prefix(s: Seq<u8>, k: int)
    requires
        0 <= k <= s.len(),
    ensures
        dec_value(s.take(k)) <= dec_value(s),
    decreases s.len() - k,
{
    if k < s.len() {
        let t = s.take(k + 1);
        assert(t.drop_last() =~= s.take(k));
        assert(dec_value(s.take(k)) * 10 >= dec_value(s.take(k))) by (nonlinear_arith)
            requires
                dec_value(s.take(k)) >= 0,
        ;
        lemma_dec_value_prefix(s, k + 1);
        assert(s.take(s.len() as int) =~= s);
    } else {
        assert(s.take(k) =~= s);
    }
}

/// Position of the first '=' byte, or the length when there is none.
pub open spec fn eq_pos(s: Seq<u8>) -> nat
    decreases s.len(),
{
    if s.len() == 0 || s[0] == 61 {
        0
    } else {
        1 + eq_pos(s.drop_first())
    }
}

pub proof fn lemma_eq_pos(s: Seq<u8>)
    ensures
        eq_pos(s) <= s.len(),
        forall|i: int| 0 <= i < eq_pos(s) ==> s[i] != 61,
        eq_pos(s) < s.len() ==> s[eq_pos(s) as int] == 61,
    decreases s.len(),
{
    if s.len() > 0 && s[0] != 61 {
        lemma_eq_pos(s.drop_first());
        assert forall|i: int| 0 <= i < eq_pos(s) implies s[i] != 61 by {
            if i > 0 {
                assert(s.drop_first()[i - 1] == s[i]);
            }
        }
        if eq_pos(s) < s.len() {
            assert(s[eq_pos(s) as int] == s.drop_first()[eq_pos(s.drop_first()) as int]);
        }
    }
}

/// The position matches a stopping point found by scanning.
pub proof fn lemma_eq_pos_exact(s: Seq<u8>, n: nat)
    requires
        n <= s.len(),
        forall|j: int| 0 <= j < n ==> s[j] != 61,
        n < s.len() ==> s[n as int] == 61,
    ensures
        eq_pos(s) == n,
    decreases s.len(),
{
    if s.len() > 0 && s[0] != 61 {
        lemma_eq_pos_exact(s.drop_first(), (n - 1) as nat);
    }
}

/// Reading of one PAX payload: each record's declared length is checked
/// against the bytes, the newline terminator and a non-empty key are
/// required, and the key/value pairs come back in order.  Any violation
/// refuses the whole payload.
pub open spec fn spec_pax_records(s: Seq<u8>) -> Option<Seq<(Seq<u8>, Seq<u8>)>>
    decreases s.len(),
{
    if s.len() == 0 {
        Some(Seq::empty())
    } else {
        let dl = leading_dec_digits(s);
        if dl == 0 || dl >= s.len() || s[dl as int] != 32 {
            None
        } else {
            let n = dec_value(s.take(dl as int));
            if n <= dl + 1 || n > s.len() || s[n - 1] != 10 {
                None
            } else {
                let body = s.subrange((dl + 1) as int, n - 1);
                let e = eq_pos(body);
                if e == 0 || e >= body.len() {
                    None
                } else {
                    let key = body.take(e as int);
                    let value = body.skip((e + 1) as int);
                    match spec_pax_records(s.skip(n as int)) {
                        Some(rest) => Some(seq![(key, value)] + rest),
                        None => None,
                    }
                }
            }
        }
    }
}

/// The `path` key: overrides the next entry's name.
pub open spec fn pax_key_path() -> Seq<u8> {
    seq![112u8, 97u8, 116u8, 104u8]
}

/// The `linkpath` key: overrides the next entry's link target.
pub open spec fn pax_key_linkpath() -> Seq<u8> {
    seq![108u8, 105u8, 110u8, 107u8, 112u8, 97u8, 116u8, 104u8]
}

/// Reads one PAX payload into its key/value pairs.
pub fn parse_pax_records(s: &[u8]) -> (r: Option<Vec<(Vec<u8>, Vec<u8>)>>)
    ensures
        match r {
            Some(v) => {
                &&& spec_pax_records(s@) matches Some(g)
                &&& g.len() == v@.len()
                &&& forall|i: int|
                    0 <= i < v@.len() ==> #[trigger] v@[i].0@ == g[i].0 && v@[i].1@ == g[i].1
            },
            None => spec_pax_records(s@) is None,
        },
{
    let ghost gs = s@;
    let n_total = s.len();
    let mut off: usize = 0;
    let mut out: Vec<(Vec<u8>, Vec<u8>)> = Vec::new();
    proof {
        assert(gs.skip(0) =~= gs);
        assert forall|g: Seq<(Seq<u8>, Seq<u8>)>|
            spec_pax_records(gs) == Some(g) implies pairs_view(out@) + g == g by {
            assert(pairs_view(out@) + g =~= g);
        }
    }
    loop
        invariant
            0 <= off <= n_total,
            n_total == gs.len(),
            gs == s@,
            forall|g: Seq<(Seq<u8>, Seq<u8>)>|
                spec_pax_records(gs.skip(off as int)) == Some(g) ==> {
                    &&& spec_pax_records(gs) matches Some(w)
                    &&& w == pairs_view(out@) + g
                },
            spec_pax_records(gs.skip(off as int)) is None ==> spec_pax_records(gs) is None,
        decreases n_total - off,
    {
        let ghost rem = gs.skip(off as int);
        if off == n_total {
            proof {
                assert(rem =~= Seq::<u8>::empty());
                assert(spec_pax_records(rem) == Some(Seq::<(Seq<u8>, Seq<u8>)>::empty()));
                assert(pairs_view(out@) + Seq::<(Seq<u8>, Seq<u8>)>::empty() =~= pairs_view(out@));
            }
            return Some(out);
        }
        // the decimal length
        let mut i = off;
        while i < n_total && 48 <= s[i] && s[i] <= 57
            invariant
                off <= i <= n_total,
                n_total == gs.len(),
                gs == s@,
                forall|j: int| off <= j < i ==> is_dec_digit(#[trigger] gs[j]),
            decreases n_total - i,
        {
            i = i + 1;
        }
        let dl = i - off;
        proof {
            assert forall|j: int| 0 <= j < dl implies is_dec_digit(#[trigger] rem[j]) by {
                assert(rem[j] == gs[j + off]);
            }
            if i < n_total {
                assert(rem[dl as int] == gs[i as int]);
            }
            lemma_leading_dec_digits_exact(rem, dl as nat);
        }
        if dl == 0 || i == n_total || s[i] != 32 {
            proof {
                if dl != 0 && i != n_total {
                    assert(rem[dl as int] == gs[i as int]);
                }
            }
            return None;
        }
        // value of the digits, stopping once it exceeds the payload length
        let ghost digits = rem.take(dl as int);
        let mut v: u64 = 0;
        let mut j = off;
        let mut too_big = false;
        while j < i
            invariant
                off <= j <= i <= n_total,
                n_total == gs.len(),
                gs == s@,
                digits == rem.take(dl as int),
                rem == gs.skip(off as int),
                dl == i - off,
                forall|k: int| off <= k < i ==> is_dec_digit(#[trigger] gs[k]),
                !too_big ==> v as nat == dec_value(digits.take(j - off)),
                !too_big ==> v <= n_total,
                too_big ==> dec_value(digits.take(j - off)) > n_total,
            decreases i - j,
        {
            proof {
                let t = digits.take(j + 1 - off);
                assert(t.drop_last() =~= digits.take(j - off));
                assert(t.last() == digits[j - off] && digits[j - off] == gs[j as int]);
            }
            if !too_big {
                let d = (s[j] - 48) as u64;
                let stepped = match v.checked_mul(10) {
                    Some(x) => x.checked_add(d),
                    None => None,
                };
                match stepped {
                    None => {
                        proof {
                            assert((v as nat) * 10 + (d as nat) > n_total as nat);
                        }
                        too_big = true;
                    },
                    Some(nv) => {
                        if nv > n_total as u64 {
                            too_big = true;
                            proof {
                                assert(dec_value(digits.take(j + 1 - off)) == nv);
                            }
                        } else {
                            v = nv;
                        }
                    },
                }
            } else {
                proof {
                    let t = digits.take(j + 1 - off);
                    assert(dec_value(t) >= dec_value(t.drop_last()) * 10) by (nonlinear_arith)
                        requires
                            dec_value(t) == dec_value(t.drop_last()) * 10 + ((t.last() - 48) as nat),
                            (t.last() - 48) as nat >= 0,
                    ;
                    assert(dec_value(t.drop_last()) * 10 >= dec_value(t.drop_last()))
                        by (nonlinear_arith)
                        requires
                            dec_value(t.drop_last()) >= 0,
                    ;
                }
            }
            j = j + 1;
        }
        proof {
            assert(digits.take(dl as int) =~= digits);
        }
        let reclen_ok = !too_big && v > (dl as u64) + 1 && v <= (n_total - off) as u64;
        proof {
            if too_big {
                assert(dec_value(digits) > n_total >= rem.len());
            }
        }
        if !reclen_ok {
            proof {
                let n = dec_value(digits);
                if !too_big {
                    assert(n == v as nat);
                }
                assert(n <= dl + 1 || n > rem.len());
            }
            return None;
        }
        let reclen = v as usize;
        // the record must end in a newline
        if s[off + reclen - 1] != 10 {
            proof {
                assert(rem[dec_value(digits) - 1] == gs[off + reclen - 1]);
            }
            return None;
        }
        proof {
            assert(rem[dec_value(digits) - 1] == gs[off + reclen - 1]);
        }
        // the key and the value
        let body_start = off + dl + 1;
        let body_end = off + reclen - 1;
        let ghost body = rem.subrange(dl + 1, dec_value(digits) - 1);
        let mut k = body_start;
        while k < body_end && s[k] != 61
            invariant
                body_start <= k <= body_end,
                body_end <= n_total == gs.len(),
                gs == s@,
                forall|t: int| body_start <= t < k ==> gs[t] != 61,
            decreases body_end - k,
        {
            k = k + 1;
        }
        proof {
            assert forall|t: int| 0 <= t < k - body_start implies body[t] != 61 by {
                assert(body[t] == gs[t + body_start]);
            }
            if k < body_end {
                assert(body[k - body_start] == gs[k as int]);
            }
            lemma_eq_pos_exact(body, (k - body_start) as nat);
        }
        if k == body_start || k == body_end {
            return None;
        }
        let key = vstd::slice::slice_to_vec(vstd::slice::slice_subrange(s, body_start, k));
        let value = vstd::slice::slice_to_vec(vstd::slice::slice_subrange(s, k + 1, body_end));
        proof {
            assert(key@ =~= body.take((k - body_start) as int));
            assert(value@ =~= body.skip((k - body_start) + 1));
        }
        let ghost old_out = out@;
        out.push((key, value));
        proof {
            let e = (k - body_start) as int;
            let entry = (body.take(e), body.skip(e + 1));
            assert(pairs_view(out@) =~= pairs_view(old_out).push(entry)) by {
                assert forall|t: int| 0 <= t < out@.len() implies pairs_view(out@)[t]
                    == pairs_view(old_out).push(entry)[t] by {
                    if t < old_out.len() {
                        assert(out@[t] == old_out[t]);
                    }
                }
            }
            // one record consumed: tie the remainder to the whole
            let nrec = dec_value(digits);
            assert(rem.skip(nrec as int) =~= gs.skip((off + reclen) as int));
            assert forall|g: Seq<(Seq<u8>, Seq<u8>)>|
                spec_pax_records(gs.skip((off + reclen) as int)) == Some(g) implies {
                &&& spec_pax_records(gs) matches Some(w)
                &&& w == pairs_view(out@) + g
            } by {
                assert(spec_pax_records(rem) == Some(seq![entry] + g));
                assert(pairs_view(old_out) + (seq![entry] + g) =~= pairs_view(out@) + g);
            }
            if spec_pax_records(gs.skip((off + reclen) as int)) is None {
                assert(spec_pax_records(rem) is None);
            }
        }
        off = off + reclen;
    }
}

/// The ghost key/value pairs a pair-of-byte-vector list stands for.
pub open spec fn pairs_view(v: Seq<(Vec<u8>, Vec<u8>)>) -> Seq<(Seq<u8>, Seq<u8>)> {
    Seq::new(v.len(), |i: int| (v[i].0@, v[i].1@))
}

} // verus!
