//! Deterministic ordering for directory traversal.
//!
//! Archive creation walks the file system; to make the output byte-for-
//! byte reproducible for the same input set, sibling names are emitted in
//! a fixed order: bytewise lexicographic.  The sort here is proved to
//! produce a sorted permutation of its input.

use vstd::prelude::*;

verus! {

/// Bytewise lexicographic order: the usual dictionary order on byte
/// strings, with a prefix before its extensions.
pub open spec fn lex_le(a: Seq<u8>, b: Seq<u8>) -> bool
    decreases a.len(),
{
    if a.len() == 0 {
        true
    } else if b.len() == 0 {
        false
    } else if a[0] < b[0] {
        true
    } else if a[0] > b[0] {
        false
    } else {
        lex_le(a.drop_first(), b.drop_first())
    }
}

/// Any two byte strings compare one way or the other.
pub proof fn lemma_lex_le_total(a: Seq<u8>, b: Seq<u8>)
    ensures
        lex_le(a, b) || lex_le(b, a),
    decreases a.len(),
{
    if a.len() > 0 && b.len() > 0 && a[0] == b[0] {
        lemma_lex_le_total(a.drop_first(), b.drop_first());
    }
}

/// The order is transitive.
pub proof fn lemma_lex_le_trans(a: Seq<u8>, b: Seq<u8>, c: Seq<u8>)
    requires
        lex_le(a, b),
        lex_le(b, c),
    ensures
        lex_le(a, c),
    decreases a.len(),
{
    if a.len() > 0 {
        if a[0] == b[0] && b[0] == c[0] {
            lemma_lex_le_trans(a.drop_first(), b.drop_first(), c.drop_first());
        }
    }
}

/// A common prefix does not decide the comparison.
pub proof fn lemma_lex_le_skip(a: Seq<u8>, b: Seq<u8>, i: int)
    requires
        0 <= i <= a.len(),
        i <= b.len(),
        forall|j: int| 0 <= j < i ==> a[j] == b[j],
    ensures
        lex_le(a, b) == lex_le(a.skip(i), b.skip(i)),
    decreases i,
{
    if i == 0 {
        assert(a.skip(0) =~= a);
        assert(b.skip(0) =~= b);
    } else {
        assert(a[0] == b[0]);
        assert(a.drop_first() =~= a.skip(1));
        assert(b.drop_first() =~= b.skip(1));
        assert forall|j: int| 0 <= j < i - 1 implies a.skip(1)[j] == b.skip(1)[j] by {
            assert(a.skip(1)[j] == a[j + 1] && b.skip(1)[j] == b[j + 1]);
        }
        lemma_lex_le_skip(a.skip(1), b.skip(1), i - 1);
        assert(a.skip(1).skip(i - 1) =~= a.skip(i));
        assert(b.skip(1).skip(i - 1) =~= b.skip(i));
    }
}

/// Compares two byte strings in lexicographic order.
pub fn lex_le_bytes(a: &[u8], b: &[u8]) -> (r: bool)
    ensures
        r == lex_le(a@, b@),
{
    let na = a.len();
    let nb = b.len();
    let n = if na < nb {
        na
    } else {
        nb
    };
    let mut i: usize = 0;
    while i < n && a[i] == b[i]
        invariant
            0 <= i <= n,
            n == (if na < nb {
                na as int
            } else {
                nb as int
            }),
            na == a@.len(),
            nb == b@.len(),
            forall|j: int| 0 <= j < i ==> a@[j] == b@[j],
        decreases n - i,
    {
        i = i + 1;
    }
    proof {
        lemma_lex_le_skip(a@, b@, i as int);
    }
    if i == na {
        proof {
            assert(a@.skip(i as int).len() == 0);
        }
        true
    } else if i == nb {
        proof {
            assert(b@.skip(i as int).len() == 0);
            assert(a@.skip(i as int).len() > 0);
        }
        false
    } else {
        proof {
            assert(a@.skip(i as int)[0] == a@[i as int]);
            assert(b@.skip(i as int)[0] == b@[i as int]);
            assert(a@[i as int] != b@[i as int]);
        }
        a[i] < b[i]
    }
}

/// The ghost names a vector of byte strings stands for.
pub open spec fn names_view(v: Seq<Vec<u8>>) -> Seq<Seq<u8>> {
    Seq::new(v.len(), |i: int| v[i]@)
}

/// Whether the names are in lexicographic order.
pub open spec fn names_sorted(v: Seq<Vec<u8>>) -> bool {
    forall|i: int, j: int| 0 <= i < j < v.len() ==> lex_le(names_view(v)[i], names_view(v)[j])
}

/// Sorts sibling names into the traversal order: afterwards the names
/// are lexicographically ordered and are exactly the old names, counted
/// with multiplicity.
pub fn sort_names(v: &mut Vec<Vec<u8>>)
    ensures
        final(v)@.len() == old(v)@.len(),
        names_sorted(final(v)@),
        final(v)@.to_multiset() == old(v)@.to_multiset(),
{
    broadcast use vstd::seq_lib::group_to_multiset_ensures;

    let n = v.len();
    if n <= 1 {
        return ;
    }
    let mut i: usize = 1;
    while i < n
        invariant
            1 <= i <= n,
            n == v@.len(),
            names_sorted(v@.take(i as int)),
            v@.to_multiset() == old(v)@.to_multiset(),
        decreases n - i,
    {
        let mut j: usize = i;
        proof {
            assert forall|a: int, b: int|
                0 <= a < b <= i && b != j implies lex_le(
                #[trigger] names_view(v@)[a],
                #[trigger] names_view(v@)[b],
            ) by {
                assert(names_view(v@.take(i as int))[a] == names_view(v@)[a]);
                assert(names_view(v@.take(i as int))[b] == names_view(v@)[b]);
            }
        }
        while j > 0 && !lex_le_bytes(v[j - 1].as_slice(), v[j].as_slice())
            invariant
                0 <= j <= i < n,
                n == v@.len(),
                v@.to_multiset() == old(v)@.to_multiset(),
                forall|a: int, b: int|
                    0 <= a < b <= i && b != j ==> lex_le(names_view(v@)[a], names_view(v@)[b]),
                forall|b: int| j < b <= i ==> lex_le(names_view(v@)[j as int], names_view(v@)[b]),
            decreases j,
        {
            proof {
                lemma_lex_le_total(v@[j - 1]@, v@[j as int]@);
            }
            let ghost before = v@;
            let x = v.remove(j - 1);
            v.insert(j, x);
            proof {
                assert(v@ =~= before.update(j - 1, before[j as int]).update(j as int, before[j - 1]));
                assert(v@.to_multiset() == before.to_multiset()) by {
                    lemma_swap_multiset(before, j - 1, j as int);
                }
                assert forall|a: int, b: int|
                    0 <= a < b <= i && b != j - 1 implies lex_le(
                    names_view(v@)[a],
                    names_view(v@)[b],
                ) by {
                    let nv = names_view(v@);
                    let ov = names_view(before);
                    if a == j - 1 {
                        assert(nv[a] == ov[j as int]);
                        if b == j {
                            assert(nv[b] == ov[j - 1]);
                        } else {
                            assert(nv[b] == ov[b]);
                            assert(lex_le(ov[j as int], ov[b]));
                        }
                    } else if a == j {
                        assert(nv[a] == ov[j - 1]);
                        assert(nv[b] == ov[b]);
                        assert(lex_le(ov[j - 1], ov[b]));
                    } else {
                        assert(nv[a] == ov[a]);
                        if b == j {
                            assert(nv[b] == ov[j - 1]);
                            if a < j - 1 {
                                assert(lex_le(ov[a], ov[j - 1]));
                            }
                        } else {
                            assert(nv[b] == ov[b]);
                            assert(lex_le(ov[a], ov[b]));
                        }
                    }
                }
                assert forall|b: int|
                    j - 1 < b <= i implies lex_le(
                    names_view(v@)[j - 1],
                    #[trigger] names_view(v@)[b],
                ) by {
                    let nv = names_view(v@);
                    let ov = names_view(before);
                    assert(nv[j - 1] == ov[j as int]);
                    if b == j {
                        assert(nv[b] == ov[j - 1]);
                        assert(lex_le(ov[j as int], ov[j - 1]));
                    } else {
                        assert(nv[b] == ov[b]);
                        assert(lex_le(ov[j as int], ov[b]));
                    }
                }
            }
            j = j - 1;
        }
        proof {
            assert forall|a: int, b: int|
                0 <= a < b <= i implies lex_le(names_view(v@)[a], names_view(v@)[b]) by {
                if b == j {
                    assert(j > 0);
                    assert(lex_le(names_view(v@)[j - 1], names_view(v@)[j as int]));
                    if a < j - 1 {
                        assert(lex_le(names_view(v@)[a], names_view(v@)[j - 1]));
                        lemma_lex_le_trans(
                            names_view(v@)[a],
                            names_view(v@)[j - 1],
                            names_view(v@)[j as int],
                        );
                    }
                }
            }
            assert forall|a: int, b: int|
                0 <= a < b < i + 1 implies lex_le(
                #[trigger] names_view(v@.take(i + 1))[a],
                #[trigger] names_view(v@.take(i + 1))[b],
            ) by {
                assert(names_view(v@.take(i + 1))[a] == names_view(v@)[a]);
                assert(names_view(v@.take(i + 1))[b] == names_view(v@)[b]);
            }
        }
        i = i + 1;
    }
    proof {
        if n > 0 {
            assert(v@.take(n as int) =~= v@);
            assert forall|a: int, b: int|
                0 <= a < b < v@.len() implies lex_le(
                #[trigger] names_view(v@)[a],
                #[trigger] names_view(v@)[b],
            ) by {
                assert(names_view(v@.take(n as int))[a] == names_view(v@)[a]);
                assert(names_view(v@.take(n as int))[b] == names_view(v@)[b]);
            }
        }
    }
}

/// Swapping two positions keeps the elements, counted with multiplicity.
proof fn lemma_swap_multiset(s: Seq<Vec<u8>>, i: int, j: int)
    requires
        0 <= i < s.len(),
        0 <= j < s.len(),
    ensures
        s.update(i, s[j]).update(j, s[i]).to_multiset() == s.to_multiset(),
{
    broadcast use vstd::seq_lib::group_to_multiset_ensures;

    let t = s.update(i, s[j]).update(j, s[i]);
    if i == j {
        assert(t =~= s);
    } else {
        lemma_update_multiset(s, i, s[j]);
        lemma_update_multiset(s.update(i, s[j]), j, s[i]);
        assert(s.update(i, s[j])[j] == s[j]);
        assert(t.to_multiset() =~= s.to_multiset());
    }
}

/// Updating one position exchanges exactly that element.
proof fn lemma_update_multiset(s: Seq<Vec<u8>>, i: int, x: Vec<u8>)
    requires
        0 <= i < s.len(),
    ensures
        s.update(i, x).to_multiset() == s.to_multiset().remove(s[i]).insert(x),
    decreases s.len(),
{
    broadcast use vstd::seq_lib::group_to_multiset_ensures;

    if i == s.len() - 1 {
        assert(s.update(i, x) =~= s.drop_last().push(x));
        assert(s =~= s.drop_last().push(s[i]));
        assert(s.drop_last().push(s[i]).to_multiset() =~= s.drop_last().to_multiset().insert(
            s[i],
        ));
        assert(s.drop_last().push(x).to_multiset() =~= s.drop_last().to_multiset().insert(x));
        assert(s.to_multiset().remove(s[i]) =~= s.drop_last().to_multiset());
    } else {
        let t = s.drop_last();
        assert(s =~= t.push(s.last()));
        assert(s.update(i, x) =~= t.update(i, x).push(s.last()));
        lemma_update_multiset(t, i, x);
        assert(t.push(s.last()).to_multiset() =~= t.to_multiset().insert(s.last()));
        assert(t.update(i, x).push(s.last()).to_multiset() =~= t.update(i, x).to_multiset().insert(
            s.last(),
        ));
        assert(t[i] == s[i]);
        assert(t.to_multiset().insert(s.last()).remove(s[i]).insert(x)
            =~= t.to_multiset().remove(s[i]).insert(x).insert(s.last()));
    }
}

} // verus!
