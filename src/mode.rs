//! Finding the most frequent byte of a buffer, with counts that stop at 255.

use vstd::prelude::*;

use crate::error::ConvertError;

verus! {

/// How often `v` occurs in `s`.
pub open spec fn occurrences(s: Seq<u8>, v: u8) -> nat
    decreases s.len(),
{
    if s.len() == 0 {
        0
    } else {
        occurrences(s.drop_last(), v) + if s.last() == v {
            1nat
        } else {
            0nat
        }
    }
}

/// The count of `v` in `s` as a counter that stops at 255 keeps it.
pub open spec fn capped_count(s: Seq<u8>, v: u8) -> nat {
    if occurrences(s, v) < 255 {
        occurrences(s, v)
    } else {
        255
    }
}

/// The byte at position `p - 1` is `v`, it brings the capped count of `v` to
/// `c`, and no value had reached `c` before it.
pub open spec fn leads_at(s: Seq<u8>, v: u8, c: u8, p: int) -> bool {
    &&& 1 <= p <= s.len()
    &&& s[p - 1] == v
    &&& capped_count(s.take(p), v) == c
    &&& forall|u: u8| #[trigger] capped_count(s.take(p - 1), u) < c
}

/// `v` is the mode of `s` with count `c`: `c` is the largest capped count,
/// and of the values that reach it, `v` reached it first.
pub open spec fn is_mode(s: Seq<u8>, v: u8, c: u8) -> bool {
    &&& forall|u: u8| #[trigger] capped_count(s, u) <= c
    &&& exists|p: int| leads_at(s, v, c, p)
}

proof fn lemma_occurrences_grow(s: Seq<u8>, v: u8, p: int, q: int)
    requires
        0 <= p <= q <= s.len(),
    ensures
        occurrences(s.take(p), v) <= occurrences(s.take(q), v),
    decreases q - p,
{
    if p < q {
        lemma_occurrences_grow(s, v, p, q - 1);
        assert(s.take(q).drop_last() =~= s.take(q - 1));
    }
}

/// A buffer has at most one mode.
pub proof fn lemma_mode_unique(s: Seq<u8>, v1: u8, c1: u8, v2: u8, c2: u8)
    requires
        is_mode(s, v1, c1),
        is_mode(s, v2, c2),
    ensures
        v1 == v2,
        c1 == c2,
{
    let p1 = choose|p: int| leads_at(s, v1, c1, p);
    let p2 = choose|p: int| leads_at(s, v2, c2, p);
    lemma_occurrences_grow(s, v1, p1, s.len() as int);
    lemma_occurrences_grow(s, v2, p2, s.len() as int);
    assert(s.take(s.len() as int) =~= s);
    assert(capped_count(s, v1) >= c1);
    assert(capped_count(s, v2) >= c2);
    assert(c1 == c2);
    if p1 < p2 {
        lemma_occurrences_grow(s, v1, p1, p2 - 1);
        assert(capped_count(s.take(p2 - 1), v1) < c2);
    } else if p2 < p1 {
        lemma_occurrences_grow(s, v2, p2, p1 - 1);
        assert(capped_count(s.take(p1 - 1), v2) < c1);
    }
}

proof fn lemma_occurrences_constant(v: u8, n: nat, u: u8)
    ensures
        occurrences(Seq::new(n, |i: int| v), u) == if u == v {
            n
        } else {
            0
        },
    decreases n,
{
    if n > 0 {
        lemma_occurrences_constant(v, (n - 1) as nat, u);
        assert(Seq::new(n, |i: int| v).drop_last() =~= Seq::new((n - 1) as nat, |i: int| v));
    }
}

/// In a buffer of `n > 0` copies of `v`, the mode is `v`, with count
/// `min(n, 255)`.
pub proof fn lemma_mode_of_constant(v: u8, n: nat, m: u8, c: u8)
    requires
        n > 0,
        is_mode(Seq::new(n, |i: int| v), m, c),
    ensures
        m == v,
        c == if n < 255 {
            n
        } else {
            255
        },
{
    let s = Seq::new(n, |i: int| v);
    let p = choose|p: int| leads_at(s, m, c, p);
    lemma_occurrences_constant(v, n, v);
    assert(capped_count(s, v) <= c);
    assert(s[p - 1] == v);
    lemma_occurrences_grow(s, v, p, n as int);
    assert(s.take(n as int) =~= s);
}

/// Finds the mode of `buf` and its capped count, scanning once from the left:
/// a value takes the lead only when its count passes the lead's.
pub fn find_mode(buf: &Vec<u8>) -> (r: Result<(u8, u8), ConvertError>)
    ensures
        r is Err <==> buf@.len() == 0,
        r is Err ==> r->Err_0 == ConvertError::EmptyInput,
        r is Ok ==> is_mode(buf@, r->Ok_0.0, r->Ok_0.1),
{
    let ghost s = buf@;
    let mut counts: [u8; 256] = [0u8; 256];
    let mut max_idx: u8 = 0;
    let mut max_val: u8 = 0;
    let ghost mut lead: int = 0;
    let mut i: usize = 0;
    proof {
        assert forall|u: u8| #[trigger] capped_count(s.take(0), u) == 0 by {
            assert(s.take(0).len() == 0);
        }
    }
    while i < buf.len()
        invariant
            s == buf@,
            0 <= i <= s.len(),
            forall|u: u8| #[trigger] counts@[u as int] == capped_count(s.take(i as int), u),
            forall|u: u8| #[trigger] capped_count(s.take(i as int), u) <= max_val,
            i == 0 ==> max_val == 0,
            i > 0 ==> leads_at(s.take(i as int), max_idx, max_val, lead),
        decreases s.len() - i,
    {
        let x: u8 = buf[i];
        let idx: usize = x as usize;
        let ghost ii = i as int;
        proof {
            assert(s.take(ii + 1).drop_last() =~= s.take(ii));
            assert(s.take(ii + 1).last() == x);
            assert(counts@[x as int] == capped_count(s.take(ii), x));
        }
        if counts[idx] < 255 {
            counts[idx] = counts[idx] + 1;
        }
        proof {
            assert forall|u: u8| #[trigger] counts@[u as int] == capped_count(s.take(ii + 1), u) by {
                assert(occurrences(s.take(ii + 1), u) == occurrences(s.take(ii), u) + if x == u {
                    1nat
                } else {
                    0nat
                });
            }
        }
        if counts[idx] > max_val {
            max_idx = x;
            max_val = counts[idx];
            proof {
                lead = ii + 1;
                assert(s.take(ii + 1).take(ii + 1) =~= s.take(ii + 1));
                assert(s.take(ii + 1).take(ii) =~= s.take(ii));
                assert forall|u: u8| #[trigger]
                    capped_count(s.take(ii + 1), u) <= max_val by {
                    assert(counts@[u as int] == capped_count(s.take(ii + 1), u));
                }
            }
        } else {
            proof {
                assert(s.take(ii + 1).take(lead) =~= s.take(ii).take(lead));
                assert(s.take(ii + 1).take(lead - 1) =~= s.take(ii).take(lead - 1));
                assert forall|u: u8| #[trigger]
                    capped_count(s.take(ii + 1), u) <= max_val by {
                    assert(counts@[u as int] == capped_count(s.take(ii + 1), u));
                    assert(counts@[x as int] == capped_count(s.take(ii + 1), x));
                    if u != x {
                        assert(counts@[u as int] == capped_count(s.take(ii), u));
                    }
                }
            }
        }
        i = i + 1;
    }
    if buf.len() == 0 {
        return Err(ConvertError::EmptyInput);
    }
    proof {
        assert(s.take(s.len() as int) =~= s);
    }
    Ok((max_idx, max_val))
}

} // verus!
