//! Substring search over payload bytes in one pass with the Knuth-Morris-Pratt
//! prefix table: no byte is read twice and no payload-sized buffer is built.
use vstd::prelude::*;

verus! {

/// Whether `needle` occurs in `hay`.
pub open spec fn occurs(needle: Seq<u8>, hay: Seq<u8>) -> bool {
    exists|i: int|
        0 <= i && i + needle.len() <= hay.len() && #[trigger] hay.subrange(i, i + needle.len()) == needle
}

/// `k` is the length of a proper border of `p[0..q]`: a shorter prefix that is also
/// a suffix.
pub open spec fn is_border(p: Seq<u8>, q: int, k: int) -> bool {
    0 <= k < q <= p.len() && p.subrange(0, k) == p.subrange(q - k, q)
}

/// `t[i]` is the length of the longest proper border of `p[0..i + 1]`, for each `i`
/// below `upto`.
pub open spec fn table_upto(p: Seq<u8>, t: Seq<usize>, upto: int) -> bool {
    &&& 0 <= upto <= t.len()
    &&& upto <= p.len()
    &&& forall|i: int| 0 <= i < upto ==> is_border(p, i + 1, #[trigger] t[i] as int)
    &&& forall|q: int, k: int|
        #![trigger is_border(p, q, k), t[q - 1]]
        1 <= q <= upto && t[q - 1] < k ==> !is_border(p, q, k)
}

/// The prefix table of `p`: for each prefix, its longest proper border.
pub open spec fn prefix_table_of(p: Seq<u8>, t: Seq<usize>) -> bool {
    t.len() == p.len() && table_upto(p, t, p.len() as int)
}

/// The last `k` of the first `n` bytes of `w` are the first `k` bytes of `p`.
pub open spec fn ends_with_prefix(p: Seq<u8>, w: Seq<u8>, n: int, k: int) -> bool {
    0 <= k <= n <= w.len() && k <= p.len() && p.subrange(0, k) == w.subrange(n - k, n)
}

/// Where the first `m` bytes of `p` end `w[0..n]`, a shorter prefix of `p` ends it
/// exactly when it is a border of `p[0..m]`.
proof fn lemma_shorter_match(p: Seq<u8>, w: Seq<u8>, n: int, m: int, k: int)
    requires
        ends_with_prefix(p, w, n, m),
        0 <= k < m,
    ensures
        ends_with_prefix(p, w, n, k) == is_border(p, m, k),
{
    assert(w.subrange(n - k, n) =~= w.subrange(n - m, n).subrange(m - k, m));
    assert(p.subrange(m - k, m) =~= p.subrange(0, m).subrange(m - k, m));
}

/// A match of `k + 1` bytes ending at `n + 1` is a match of `k` bytes ending at `n`
/// followed by the next byte of the pattern.
proof fn lemma_extend_match(p: Seq<u8>, w: Seq<u8>, n: int, k: int)
    requires
        0 <= k < p.len(),
        0 <= n < w.len(),
    ensures
        ends_with_prefix(p, w, n + 1, k + 1) == (ends_with_prefix(p, w, n, k) && p[k] == w[n]),
{
    if ends_with_prefix(p, w, n + 1, k + 1) {
        assert(p.subrange(0, k) =~= p.subrange(0, k + 1).subrange(0, k));
        assert(w.subrange(n - k, n) =~= w.subrange(n + 1 - (k + 1), n + 1).subrange(0, k));
        assert(p.subrange(0, k + 1)[k] == w.subrange(n - k, n + 1)[k]);
    }
    if ends_with_prefix(p, w, n, k) && p[k] == w[n] {
        assert(p.subrange(0, k + 1) =~= w.subrange(n + 1 - (k + 1), n + 1));
    }
}

/// A border of `p[0..q]` is a match of `p` ending the first `q` bytes of `p` itself.
proof fn lemma_border_is_match(p: Seq<u8>, q: int, k: int)
    requires
        0 <= k < q <= p.len(),
    ensures
        is_border(p, q, k) == ends_with_prefix(p, p, q, k),
{
}

/// The prefix table of `needle` (see [`prefix_table_of`]).
pub fn prefix_table(needle: &[u8]) -> (t: Vec<usize>)
    requires
        needle@.len() > 0,
    ensures
        prefix_table_of(needle@, t@),
{
    let n = needle.len();
    let ghost p = needle@;
    let mut t: Vec<usize> = Vec::new();
    t.push(0);
    proof {
        assert forall|q: int, k: int|
            #![trigger is_border(p, q, k), t@[q - 1]]
            1 <= q <= 1 && t@[q - 1] < k implies !is_border(p, q, k) by {}
        assert(is_border(p, 1, 0)) by {
            assert(p.subrange(0, 0) =~= p.subrange(1, 1));
        }
    }
    let mut matched: usize = 0;
    let mut i: usize = 1;
    while i < n
        invariant
            1 <= i <= n,
            n == p.len(),
            p == needle@,
            t@.len() == i,
            table_upto(p, t@, i as int),
            matched == t@[i - 1],
        decreases n - i,
    {
        let c = needle[i];
        proof {
            assert(is_border(p, i as int, matched as int));
        }
        while matched != 0 && c != needle[matched]
            invariant
                1 <= i < n,
                n == p.len(),
                p == needle@,
                c == p[i as int],
                t@.len() == i,
                table_upto(p, t@, i as int),
                is_border(p, i as int, matched as int),
                forall|k: int|
                    matched < k < i && #[trigger] is_border(p, i as int, k) ==> p[k] != c,
            decreases matched,
        {
            let m = matched;
            let next = t[m - 1];
            proof {
                assert(is_border(p, m as int, next as int));
                lemma_border_is_match(p, i as int, m as int);
                assert forall|k: int| next < k < i && #[trigger] is_border(p, i as int, k) implies p[k]
                    != c by {
                    if k < m {
                        lemma_border_is_match(p, i as int, k);
                        lemma_shorter_match(p, p, i as int, m as int, k);
                        assert(is_border(p, m as int, k));
                    }
                }
                lemma_border_is_match(p, i as int, next as int);
                lemma_shorter_match(p, p, i as int, m as int, next as int);
            }
            matched = next;
        }
        let ghost m0 = matched as int;
        if c == needle[matched] {
            matched = matched + 1;
        }
        proof {
            assert forall|k: int| 0 <= k < i implies #[trigger] is_border(p, i + 1, k + 1) == (
            is_border(p, i as int, k) && p[k] == c) by {
                lemma_border_is_match(p, i + 1, k + 1);
                lemma_border_is_match(p, i as int, k);
                lemma_extend_match(p, p, i as int, k);
            }
            assert(is_border(p, i + 1, 0)) by {
                assert(p.subrange(0, 0) =~= p.subrange(i + 1, i + 1));
            }
            assert(is_border(p, i + 1, matched as int)) by {
                if matched > 0 {
                    assert(is_border(p, i + 1, m0 + 1));
                }
            }
            assert forall|k: int| matched < k implies !#[trigger] is_border(p, i + 1, k) by {
                if is_border(p, i + 1, k) {
                    assert(is_border(p, i + 1, (k - 1) + 1));
                    assert(is_border(p, i as int, k - 1) && p[k - 1] == c);
                }
            }
        }
        let ghost t0 = t@;
        t.push(matched);
        proof {
            assert forall|j: int| 0 <= j < i + 1 implies is_border(p, j + 1, #[trigger] t@[j] as int) by {
                if j < i {
                    assert(t@[j] == t0[j]);
                }
            }
            assert forall|q: int, k: int|
                #![trigger is_border(p, q, k), t@[q - 1]]
                1 <= q <= i + 1 && t@[q - 1] < k implies !is_border(p, q, k) by {
                if q <= i {
                    assert(t@[q - 1] == t0[q - 1]);
                    assert(!is_border(p, q, k));
                }
            }
        }
        i = i + 1;
    }
    t
}

/// Whether `needle` occurs in `hay[start..start + len]`, reading each byte once;
/// `table` is the prefix table of `needle`.
pub fn occurs_in(hay: &[u8], start: usize, len: usize, needle: &[u8], table: &Vec<usize>) -> (r:
    bool)
    requires
        start + len <= hay@.len(),
        needle@.len() > 0,
        prefix_table_of(needle@, table@),
    ensures
        r == occurs(needle@, hay@.subrange(start as int, start + len)),
{
    let ghost w = hay@.subrange(start as int, start + len);
    let ghost p = needle@;
    let n = needle.len();
    let mut matched: usize = 0;
    let mut at: usize = 0;
    let _hay_len = hay.len();
    proof {
        assert(p.subrange(0, 0) =~= w.subrange(0, 0));
    }
    while at < len
        invariant
            at <= len,
            start + len <= hay@.len() <= usize::MAX,
            w == hay@.subrange(start as int, start + len),
            p == needle@,
            n == p.len(),
            n > 0,
            prefix_table_of(p, table@),
            matched < n,
            ends_with_prefix(p, w, at as int, matched as int),
            forall|k: int| matched < k <= n ==> !#[trigger] ends_with_prefix(p, w, at as int, k),
            forall|j: int| 0 <= j && j + n <= at ==> #[trigger] w.subrange(j, j + n) != p,
        decreases len - at,
    {
        let c = hay[start + at];
        assert(c == w[at as int]);
        while matched != 0 && c != needle[matched]
            invariant
                at < len,
                start + len <= hay@.len(),
                w == hay@.subrange(start as int, start + len),
                p == needle@,
                n == p.len(),
                c == w[at as int],
                prefix_table_of(p, table@),
                matched < n,
                ends_with_prefix(p, w, at as int, matched as int),
                forall|k: int|
                    matched < k < n && #[trigger] ends_with_prefix(p, w, at as int, k) ==> p[k] != c,
            decreases matched,
        {
            let m = matched;
            let next = table[m - 1];
            proof {
                assert(is_border(p, m as int, next as int));
                assert forall|k: int|
                    next < k < n && #[trigger] ends_with_prefix(p, w, at as int, k) implies p[k] != c by {
                    if k < m {
                        lemma_shorter_match(p, w, at as int, m as int, k);
                        assert(!is_border(p, m as int, k));
                    }
                }
                lemma_shorter_match(p, w, at as int, m as int, next as int);
            }
            matched = next;
        }
        let ghost m0 = matched as int;
        if c == needle[matched] {
            matched = matched + 1;
        }
        proof {
            assert forall|k: int| 0 <= k < n implies #[trigger] ends_with_prefix(p, w, at + 1, k + 1)
                == (ends_with_prefix(p, w, at as int, k) && p[k] == c) by {
                lemma_extend_match(p, w, at as int, k);
            }
            assert(ends_with_prefix(p, w, at + 1, matched as int)) by {
                if matched > 0 {
                    assert(ends_with_prefix(p, w, at + 1, m0 + 1));
                } else {
                    assert(p.subrange(0, 0) =~= w.subrange(at + 1, at + 1));
                }
            }
            assert forall|k: int| matched < k <= n implies !#[trigger] ends_with_prefix(
                p,
                w,
                at + 1,
                k,
            ) by {
                if ends_with_prefix(p, w, at + 1, k) {
                    assert(ends_with_prefix(p, w, at + 1, (k - 1) + 1));
                }
            }
        }
        at = at + 1;
        if matched == n {
            proof {
                assert(w.subrange(at - n, at - n + p.len()) == p);
            }
            return true;
        }
        proof {
            assert forall|j: int| 0 <= j && j + n <= at implies #[trigger] w.subrange(j, j + n) != p by {
                if j + n == at && w.subrange(j, j + n) == p {
                    assert(p.subrange(0, n as int) =~= p);
                    assert(ends_with_prefix(p, w, at as int, n as int));
                }
            }
        }
    }
    false
}

} // verus!
