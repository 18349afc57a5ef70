//! The byte ranges of a payload received so far, kept as maximal disjoint spans.
use vstd::prelude::*;

verus! {

/// Whether byte `x` lies in one of the spans.
pub open spec fn span_has(spans: Seq<(u64, u64)>, x: int) -> bool {
    exists|k: int| 0 <= k < spans.len() && #[trigger] spans[k].0 <= x && x < spans[k].1
}

/// Spans are non-empty, in increasing order, and neither overlap nor touch.
pub open spec fn spans_wf(spans: Seq<(u64, u64)>) -> bool {
    &&& forall|k: int| 0 <= k < spans.len() ==> #[trigger] spans[k].0 < spans[k].1
    &&& forall|i: int, j: int| 0 <= i < j < spans.len() ==> #[trigger] spans[i].1 < #[trigger] spans[j].0
}

/// The number of bytes the spans cover.
pub open spec fn spans_total(spans: Seq<(u64, u64)>) -> nat
    decreases spans.len(),
{
    if spans.len() == 0 {
        0
    } else {
        spans_total(spans.drop_last()) + (spans.last().1 - spans.last().0) as nat
    }
}

proof fn lemma_total_concat(a: Seq<(u64, u64)>, b: Seq<(u64, u64)>)
    requires
        spans_wf(a + b),
    ensures
        spans_total(a + b) == spans_total(a) + spans_total(b),
    decreases b.len(),
{
    if b.len() == 0 {
        assert(a + b =~= a);
    } else {
        assert((a + b).drop_last() =~= a + b.drop_last());
        assert(spans_wf(a + b.drop_last())) by {
            let c = a + b.drop_last();
            assert forall|k: int| 0 <= k < c.len() implies #[trigger] c[k].0 < c[k].1 by {
                assert(c[k] == (a + b)[k]);
            }
            assert forall|i: int, j: int| 0 <= i < j < c.len() implies #[trigger] c[i].1
                < #[trigger] c[j].0 by {
                assert(c[i] == (a + b)[i] && c[j] == (a + b)[j]);
            }
        }
        lemma_total_concat(a, b.drop_last());
    }
}

proof fn lemma_total_bound(spans: Seq<(u64, u64)>)
    requires
        spans_wf(spans),
        spans.len() > 0,
    ensures
        spans_total(spans) <= spans.last().1,
    decreases spans.len(),
{
    if spans.len() > 1 {
        let d = spans.drop_last();
        assert(spans_wf(d)) by {
            assert forall|k: int| 0 <= k < d.len() implies #[trigger] d[k].0 < d[k].1 by {
                assert(d[k] == spans[k]);
            }
            assert forall|i: int, j: int| 0 <= i < j < d.len() implies #[trigger] d[i].1
                < #[trigger] d[j].0 by {
                assert(d[i] == spans[i] && d[j] == spans[j]);
            }
        }
        lemma_total_bound(d);
        assert(d.last() == spans[spans.len() - 2]);
        assert(spans[spans.len() - 2].1 < spans[spans.len() - 1].0);
        assert(spans.last() == spans[spans.len() - 1]);
    } else {
        assert(spans.drop_last().len() == 0);
        assert(spans_total(spans.drop_last()) == 0);
    }
}

/// Where `start..end` goes among the spans `s`, given that the first `i` spans start
/// at or before `start` and neither of its neighbours overlaps it.
pub open spec fn gap_at(s: Seq<(u64, u64)>, i: int, start: u64, end: u64) -> bool {
    &&& spans_wf(s)
    &&& 0 <= i <= s.len()
    &&& start < end
    &&& forall|k: int| 0 <= k < i ==> #[trigger] s[k].0 <= start
    &&& forall|k: int| i <= k < s.len() ==> #[trigger] s[k].0 > start
    &&& i > 0 ==> s[i - 1].1 <= start
    &&& i < s.len() ==> s[i].0 >= end
}

pub open spec fn merges_prev(s: Seq<(u64, u64)>, i: int, start: u64) -> bool {
    i > 0 && s[i - 1].1 == start
}

pub open spec fn merges_next(s: Seq<(u64, u64)>, i: int, end: u64) -> bool {
    i < s.len() && s[i].0 == end
}

/// The span that `start..end` becomes together with the neighbours it touches.
pub open spec fn merged(s: Seq<(u64, u64)>, i: int, start: u64, end: u64) -> (u64, u64) {
    (
        if merges_prev(s, i, start) {
            s[i - 1].0
        } else {
            start
        },
        if merges_next(s, i, end) {
            s[i].1
        } else {
            end
        },
    )
}

pub open spec fn splice_lo(s: Seq<(u64, u64)>, i: int, start: u64) -> int {
    if merges_prev(s, i, start) {
        i - 1
    } else {
        i
    }
}

pub open spec fn splice_hi(s: Seq<(u64, u64)>, i: int, end: u64) -> int {
    if merges_next(s, i, end) {
        i + 1
    } else {
        i
    }
}

/// The spans once `start..end` is added.
pub open spec fn splice(s: Seq<(u64, u64)>, i: int, start: u64, end: u64) -> Seq<(u64, u64)> {
    s.subrange(0, splice_lo(s, i, start)) + seq![merged(s, i, start, end)] + s.subrange(
        splice_hi(s, i, end),
        s.len() as int,
    )
}

proof fn lemma_splice_wf(s: Seq<(u64, u64)>, i: int, start: u64, end: u64)
    requires
        gap_at(s, i, start, end),
    ensures
        spans_wf(splice(s, i, start, end)),
{
    let lo = splice_lo(s, i, start);
    let hi = splice_hi(s, i, end);
    let m = merged(s, i, start, end);
    let t = splice(s, i, start, end);
    let n = s.len() as int;
    assert forall|a: int| 0 <= a < lo implies #[trigger] s[a].1 < m.0 by {
        if merges_prev(s, i, start) {
            assert(s[a].1 < s[i - 1].0);
        } else if i > 0 {
            if a < i - 1 {
                assert(s[a].1 < s[i - 1].0);
            }
        }
    }
    assert forall|b: int| hi <= b < n implies m.1 < #[trigger] s[b].0 by {
        if merges_next(s, i, end) {
            assert(s[i].1 < s[b].0);
        } else if b > i {
            assert(s[i].1 < s[b].0);
        }
    }
    assert forall|a: int| 0 <= a < t.len() implies #[trigger] t[a].0 < t[a].1 by {
        if a < lo {
            assert(t[a] == s[a]);
        } else if a > lo {
            assert(t[a] == s[a - lo - 1 + hi]);
        }
    }
    assert forall|a: int, b: int| 0 <= a < b < t.len() implies #[trigger] t[a].1
        < #[trigger] t[b].0 by {
        if b < lo {
            assert(t[a] == s[a] && t[b] == s[b]);
        } else if b == lo {
            assert(t[a] == s[a]);
        } else if a < lo {
            assert(t[a] == s[a] && t[b] == s[b - lo - 1 + hi]);
            assert(s[a].1 < m.0);
            assert(m.1 < s[b - lo - 1 + hi].0);
        } else if a == lo {
            assert(t[b] == s[b - lo - 1 + hi]);
        } else {
            assert(t[a] == s[a - lo - 1 + hi] && t[b] == s[b - lo - 1 + hi]);
        }
    }
}

proof fn lemma_splice_has(s: Seq<(u64, u64)>, i: int, start: u64, end: u64, x: int)
    requires
        gap_at(s, i, start, end),
    ensures
        span_has(splice(s, i, start, end), x) == (span_has(s, x) || start <= x < end),
{
    let lo = splice_lo(s, i, start);
    let hi = splice_hi(s, i, end);
    let m = merged(s, i, start, end);
    let t = splice(s, i, start, end);
    assert(t[lo] == m);
    if span_has(t, x) {
        let a = choose|a: int| 0 <= a < t.len() && #[trigger] t[a].0 <= x && x < t[a].1;
        if a < lo {
            assert(t[a] == s[a]);
        } else if a > lo {
            assert(t[a] == s[a - lo - 1 + hi]);
        } else if x < start {
            assert(s[i - 1].0 <= x && x < s[i - 1].1);
        } else if x >= end {
            assert(s[i].0 <= x && x < s[i].1);
        }
    }
    if span_has(s, x) {
        let a = choose|a: int| 0 <= a < s.len() && #[trigger] s[a].0 <= x && x < s[a].1;
        if a < lo {
            assert(t[a] == s[a]);
        } else if a >= hi {
            assert(t[a - hi + lo + 1] == s[a]);
        } else {
            assert(m.0 <= x && x < m.1);
        }
    }
    if start <= x < end {
        assert(m.0 <= x && x < m.1);
    }
}

proof fn lemma_splice_total(s: Seq<(u64, u64)>, i: int, start: u64, end: u64)
    requires
        gap_at(s, i, start, end),
    ensures
        spans_total(splice(s, i, start, end)) == spans_total(s) + (end - start),
{
    let lo = splice_lo(s, i, start);
    let hi = splice_hi(s, i, end);
    let m = merged(s, i, start, end);
    let n = s.len() as int;
    let pre = s.subrange(0, lo);
    let mid = s.subrange(lo, hi);
    let post = s.subrange(hi, n);
    lemma_splice_wf(s, i, start, end);
    assert(splice(s, i, start, end) =~= (pre + seq![m]) + post);
    assert(s =~= (pre + mid) + post);
    lemma_total_concat(pre + mid, post);
    lemma_total_concat(pre + seq![m], post);
    assert(spans_wf(pre + mid)) by {
        let c = pre + mid;
        assert(c =~= s.subrange(0, hi));
        assert forall|k: int| 0 <= k < c.len() implies #[trigger] c[k].0 < c[k].1 by {
            assert(c[k] == s[k]);
        }
        assert forall|a: int, b: int| 0 <= a < b < c.len() implies #[trigger] c[a].1
            < #[trigger] c[b].0 by {
            assert(c[a] == s[a] && c[b] == s[b]);
        }
    }
    lemma_total_concat(pre, mid);
    assert(spans_wf(pre + seq![m])) by {
        let t = splice(s, i, start, end);
        let c = pre + seq![m];
        assert(c =~= t.subrange(0, lo + 1));
        assert forall|k: int| 0 <= k < c.len() implies #[trigger] c[k].0 < c[k].1 by {
            assert(c[k] == t[k]);
        }
        assert forall|a: int, b: int| 0 <= a < b < c.len() implies #[trigger] c[a].1
            < #[trigger] c[b].0 by {
            assert(c[a] == t[a] && c[b] == t[b]);
        }
    }
    lemma_total_concat(pre, seq![m]);
    assert(seq![m].drop_last() =~= Seq::<(u64, u64)>::empty());
    if merges_prev(s, i, start) {
        assert(s[i - 1].0 < s[i - 1].1);
    }
    if merges_next(s, i, end) {
        assert(s[i].0 < s[i].1);
    }
    assert(m.0 <= start && end <= m.1);
    assert(spans_total(Seq::<(u64, u64)>::empty()) == 0);
    assert(seq![m].last() == m);
    assert(spans_total(seq![m]) == m.1 - m.0);
    if merges_prev(s, i, start) && merges_next(s, i, end) {
        assert(mid =~= seq![s[i - 1], s[i]]);
        assert(mid.drop_last() =~= seq![s[i - 1]]);
        assert(mid.drop_last().drop_last() =~= Seq::<(u64, u64)>::empty());
        assert(spans_total(mid.drop_last()) == s[i - 1].1 - s[i - 1].0);
        assert(spans_total(mid) == (s[i - 1].1 - s[i - 1].0) + (s[i].1 - s[i].0));
    } else if merges_prev(s, i, start) {
        assert(mid =~= seq![s[i - 1]]);
        assert(mid.drop_last() =~= Seq::<(u64, u64)>::empty());
        assert(spans_total(mid) == s[i - 1].1 - s[i - 1].0);
    } else if merges_next(s, i, end) {
        assert(mid =~= seq![s[i]]);
        assert(mid.drop_last() =~= Seq::<(u64, u64)>::empty());
        assert(spans_total(mid) == s[i].1 - s[i].0);
    } else {
        assert(mid =~= Seq::<(u64, u64)>::empty());
        assert(spans_total(mid) == 0);
    }
}

/// Received byte ranges of one payload.
#[derive(Debug)]
pub struct ByteRanges {
    spans: Vec<(u64, u64)>,
}

impl ByteRanges {
    /// The spans are in order and maximal.
    pub closed spec fn wf(&self) -> bool {
        spans_wf(self.spans@)
    }

    /// Whether byte `x` has been received.
    pub closed spec fn has(&self, x: int) -> bool {
        span_has(self.spans@, x)
    }

    /// How many bytes have been received.
    pub closed spec fn size(&self) -> nat {
        spans_total(self.spans@)
    }

    /// Nothing received.
    pub fn new() -> (r: Self)
        ensures
            r.wf(),
            forall|x: int| !r.has(x),
            r.size() == 0,
    {
        ByteRanges { spans: Vec::new() }
    }

    /// Received bytes all lie below `limit`, so there are at most `limit` of them.
    pub proof fn lemma_size_bound(&self, limit: int)
        requires
            self.wf(),
            0 <= limit,
            forall|x: int| #[trigger] self.has(x) ==> x < limit,
        ensures
            self.size() <= limit,
    {
        let s = self.spans@;
        if s.len() > 0 {
            lemma_total_bound(s);
            let k = s.len() - 1;
            assert(s[k].0 <= s[k].1 - 1 && s[k].1 - 1 < s[k].1);
            assert(span_has(s, s[k].1 - 1));
            assert(self.has(s[k].1 - 1));
            assert(s[k].1 - 1 < limit);
            assert(s.last() == s[k]);
            assert(spans_total(s) <= s[k].1);
            assert(self.size() == spans_total(s));
        }
    }

    /// Records `start..end` as received, unless some of it already was: then
    /// nothing changes and the result is `false`.
    pub fn add(&mut self, start: u64, end: u64) -> (r: bool)
        requires
            old(self).wf(),
            start < end,
        ensures
            final(self).wf(),
            r == !(exists|x: int| start <= x < end && #[trigger] old(self).has(x)),
            r ==> forall|x: int| #[trigger]
                final(self).has(x) == (old(self).has(x) || start <= x < end),
            r ==> final(self).size() == old(self).size() + (end - start),
            !r ==> *final(self) == *old(self),
    {
        let ghost s = self.spans@;
        let n = self.spans.len();
        let mut i: usize = 0;
        while i < n && self.spans[i].0 <= start
            invariant
                i <= n,
                n == s.len(),
                s == self.spans@,
                spans_wf(s),
                forall|k: int| 0 <= k < i ==> #[trigger] s[k].0 <= start,
            decreases n - i,
        {
            i = i + 1;
        }
        // Spans from `i` on start after `start`.
        assert forall|k: int| i <= k < n implies #[trigger] s[k].0 > start by {
            if k > i {
                assert(s[i as int].1 < s[k].0);
            }
        }
        if i > 0 && self.spans[i - 1].1 > start {
            proof {
                let k = i - 1;
                assert(s[k as int].0 <= start && start < s[k as int].1);
                assert(span_has(s, start as int));
                assert(old(self).spans@ == s);
                assert(old(self).has(start as int));
            }
            return false;
        }
        if i < n && self.spans[i].0 < end {
            proof {
                assert(s[i as int].0 <= s[i as int].0 && s[i as int].0 < s[i as int].1);
                assert(span_has(s, s[i as int].0 as int));
                assert(old(self).spans@ == s);
                assert(old(self).has(s[i as int].0 as int));
            }
            return false;
        }
        proof {
            assert forall|x: int| start <= x < end implies !#[trigger] old(self).has(x) by {
                if old(self).has(x) {
                    let k = choose|k: int| 0 <= k < s.len() && #[trigger] s[k].0 <= x && x < s[k].1;
                    if k < i - 1 {
                        assert(s[k].1 < s[i - 1].0);
                    } else if k > i {
                        assert(s[i as int].1 < s[k].0);
                    }
                }
            }
        }
        let merge_prev = i > 0 && self.spans[i - 1].1 == start;
        let merge_next = i < n && self.spans[i].0 == end;
        let lo: usize = if merge_prev {
            i - 1
        } else {
            i
        };
        let hi: usize = if merge_next {
            i + 1
        } else {
            i
        };
        let new_start = if merge_prev {
            self.spans[i - 1].0
        } else {
            start
        };
        let new_end = if merge_next {
            self.spans[i].1
        } else {
            end
        };
        let mut out: Vec<(u64, u64)> = Vec::new();
        let mut k: usize = 0;
        while k < lo
            invariant
                k <= lo <= n,
                n == s.len(),
                s == self.spans@,
                out@ == s.subrange(0, k as int),
            decreases lo - k,
        {
            out.push(self.spans[k]);
            k = k + 1;
            assert(out@ =~= s.subrange(0, k as int));
        }
        out.push((new_start, new_end));
        let mut k: usize = hi;
        let ghost head = out@;
        while k < n
            invariant
                hi <= k <= n,
                n == s.len(),
                s == self.spans@,
                out@ == head + s.subrange(hi as int, k as int),
            decreases n - k,
        {
            out.push(self.spans[k]);
            k = k + 1;
            assert(out@ =~= head + s.subrange(hi as int, k as int));
        }
        proof {
            assert(gap_at(s, i as int, start, end));
            assert(out@ =~= splice(s, i as int, start, end));
            lemma_splice_wf(s, i as int, start, end);
            lemma_splice_total(s, i as int, start, end);
            assert forall|x: int| #[trigger] span_has(out@, x) == (span_has(s, x) || start <= x
                < end) by {
                lemma_splice_has(s, i as int, start, end, x);
            }
        }
        self.spans = out;
        true
    }

    /// Whether every byte of `start..start + len` has been received.
    pub fn covers(&self, start: u64, len: u64) -> (r: bool)
        requires
            self.wf(),
        ensures
            r == forall|x: int| start <= x < start + len ==> #[trigger] self.has(x),
    {
        let ghost s = self.spans@;
        if len == 0 {
            return true;
        }
        let n = self.spans.len();
        let mut i: usize = 0;
        while i < n && self.spans[i].0 <= start
            invariant
                i <= n,
                n == s.len(),
                s == self.spans@,
                spans_wf(s),
                forall|k: int| 0 <= k < i ==> #[trigger] s[k].0 <= start,
            decreases n - i,
        {
            i = i + 1;
        }
        assert forall|k: int| i <= k < n implies #[trigger] s[k].0 > start by {
            if k > i {
                assert(s[i as int].1 < s[k].0);
            }
        }
        if i == 0 {
            proof {
                if self.has(start as int) {
                    let k = choose|k: int| 0 <= k < s.len() && #[trigger] s[k].0 <= start && start
                        < s[k].1;
                }
                assert(!self.has(start as int));
            }
            return false;
        }
        let e = self.spans[i - 1].1;
        let ok = match start.checked_add(len) {
            None => false,
            Some(limit) => limit <= e,
        };
        proof {
            let k = i - 1;
            if ok {
                assert forall|x: int| start <= x < start + len implies #[trigger] self.has(x) by {
                    assert(s[k].0 <= x && x < s[k].1);
                }
            } else {
                // Either `start` is not received, or the received run that holds it
                // ends at `e`, which lies inside the range.
                if s[k].1 <= start {
                    if self.has(start as int) {
                        let j = choose|j: int| 0 <= j < s.len() && #[trigger] s[j].0 <= start
                            && start < s[j].1;
                        if j < k {
                            assert(s[j].1 < s[k].0);
                        }
                    }
                    assert(!self.has(start as int));
                } else {
                    assert(start < e && e < start + len);
                    if self.has(e as int) {
                        let j = choose|j: int| 0 <= j < s.len() && #[trigger] s[j].0 <= e && e
                            < s[j].1;
                        if j < k {
                            assert(s[j].1 < s[k].0);
                        } else if j > k {
                            assert(s[k].1 < s[j].0);
                        }
                    }
                    assert(!self.has(e as int));
                }
            }
        }
        ok
    }
}

} // verus!
