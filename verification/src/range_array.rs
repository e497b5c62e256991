//! Sorted sets of non-overlapping, non-touching half-open intervals.
//!
//! A `RangeArray` keeps the intervals in ascending order and merges any
//! inserted interval with the existing ones it overlaps or touches, so the
//! stored sequence is the canonical representation of the covered set of
//! integers.

use vstd::prelude::*;

verus! {

/// Index types that can bound an interval: copyable, totally ordered, and
/// mapped to a mathematical integer key.
pub trait RangeIdx: Copy {
    /// The mathematical value this index stands for.
    spec fn key(self) -> int;

    /// `<=` on keys.
    fn le(self, other: Self) -> (r: bool)
        ensures
            r <==> self.key() <= other.key(),
    ;

    /// `<` on keys.
    fn lt(self, other: Self) -> (r: bool)
        ensures
            r <==> self.key() < other.key(),
    ;
}

impl RangeIdx for u16 {
    open spec fn key(self) -> int {
        self as int
    }

    fn le(self, other: Self) -> bool {
        self <= other
    }

    fn lt(self, other: Self) -> bool {
        self < other
    }
}

impl RangeIdx for usize {
    open spec fn key(self) -> int {
        self as int
    }

    fn le(self, other: Self) -> bool {
        self <= other
    }

    fn lt(self, other: Self) -> bool {
        self < other
    }
}

impl RangeIdx for i64 {
    open spec fn key(self) -> int {
        self as int
    }

    fn le(self, other: Self) -> bool {
        self <= other
    }

    fn lt(self, other: Self) -> bool {
        self < other
    }
}

/// A half-open interval `[start, end)`.
#[derive(Clone, Copy, Debug, PartialEq, Eq)]
pub struct Span<T> {
    pub start: T,
    pub end: T,
}

/// The pair of integer keys an interval stands for.
pub open spec fn span_view<T: RangeIdx>(s: Span<T>) -> (int, int) {
    (s.start.key(), s.end.key())
}

/// Every interval is non-empty, and intervals appear in ascending order with
/// a gap of at least one integer between any two of them.
pub open spec fn wf_spans(s: Seq<(int, int)>) -> bool {
    &&& forall|i: int| 0 <= i < s.len() ==> (#[trigger] s[i]).0 < s[i].1
    &&& forall|i: int, j: int|
        0 <= i < j < s.len() ==> (#[trigger] s[i]).1 < (#[trigger] s[j]).0
}

/// The integer `x` lies in the half-open interval `p`.
pub open spec fn span_contains(p: (int, int), x: int) -> bool {
    p.0 <= x < p.1
}

/// The integer `x` lies in one of the intervals.
pub open spec fn spans_cover(s: Seq<(int, int)>, x: int) -> bool {
    exists|i: int| 0 <= i < s.len() && #[trigger] span_contains(s[i], x)
}

/// Two canonical interval sequences that cover the same integers are equal:
/// the stored sequence of a `RangeArray` is determined by the covered set
/// alone, so iterating it after any mix of insertions yields exactly the
/// ascending, non-touching decomposition of the union of what was inserted.
pub proof fn lemma_wf_spans_canonical(a: Seq<(int, int)>, b: Seq<(int, int)>)
    requires
        wf_spans(a),
        wf_spans(b),
        forall|x: int| #[trigger] spans_cover(a, x) <==> spans_cover(b, x),
    ensures
        a =~= b,
    decreases a.len(),
{
    if a.len() == 0 {
        if b.len() > 0 {
            assert(span_contains(b[0], b[0].0));
            assert(spans_cover(b, b[0].0));
            assert(spans_cover(a, b[0].0));
            assert(false);
        }
    } else if b.len() == 0 {
        assert(span_contains(a[0], a[0].0));
        assert(spans_cover(a, a[0].0));
        assert(!spans_cover(b, a[0].0));
        assert(false);
    } else {
        // every covered integer lies at or beyond the first interval's start
        assert forall|x: int| #[trigger] spans_cover(a, x) implies x >= a[0].0 by {
            let i = choose|i: int| 0 <= i < a.len() && #[trigger] span_contains(a[i], x);
            if i > 0 {
                assert(a[0].1 < a[i].0);
            }
        };
        assert forall|x: int| #[trigger] spans_cover(b, x) implies x >= b[0].0 by {
            let i = choose|i: int| 0 <= i < b.len() && #[trigger] span_contains(b[i], x);
            if i > 0 {
                assert(b[0].1 < b[i].0);
            }
        };
        assert(span_contains(a[0], a[0].0) && spans_cover(a, a[0].0));
        assert(span_contains(b[0], b[0].0) && spans_cover(b, b[0].0));
        assert(spans_cover(a, b[0].0));
        assert(spans_cover(b, a[0].0));
        assert(a[0].0 == b[0].0);
        // the first gap appears at the same place on both sides
        assert(a[0].1 == b[0].1) by {
            if a[0].1 < b[0].1 {
                assert(span_contains(b[0], a[0].1));
                assert(spans_cover(b, a[0].1));
                assert(spans_cover(a, a[0].1));
                let i = choose|i: int| 0 <= i < a.len() && #[trigger] span_contains(
                    a[i],
                    a[0].1,
                );
                assert(i > 0 ==> a[0].1 < a[i].0);
                assert(false);
            }
            if b[0].1 < a[0].1 {
                assert(span_contains(a[0], b[0].1));
                assert(spans_cover(a, b[0].1));
                assert(spans_cover(b, b[0].1));
                let i = choose|i: int| 0 <= i < b.len() && #[trigger] span_contains(
                    b[i],
                    b[0].1,
                );
                assert(i > 0 ==> b[0].1 < b[i].0);
                assert(false);
            }
        };
        let ta = a.subrange(1, a.len() as int);
        let tb = b.subrange(1, b.len() as int);
        assert(wf_spans(ta)) by {
            assert(forall|i: int| 0 <= i < ta.len() ==> #[trigger] ta[i] == a[i + 1]);
        };
        assert(wf_spans(tb)) by {
            assert(forall|i: int| 0 <= i < tb.len() ==> #[trigger] tb[i] == b[i + 1]);
        };
        assert forall|x: int| #[trigger] spans_cover(ta, x) <==> spans_cover(tb, x) by {
            assert(spans_cover(ta, x) <==> (spans_cover(a, x) && x >= a[0].1)) by {
                if spans_cover(ta, x) {
                    let i = choose|i: int| 0 <= i < ta.len() && #[trigger] span_contains(
                        ta[i],
                        x,
                    );
                    assert(ta[i] == a[i + 1]);
                    assert(span_contains(a[i + 1], x));
                    assert(a[0].1 < a[i + 1].0);
                }
                if spans_cover(a, x) && x >= a[0].1 {
                    let i = choose|i: int| 0 <= i < a.len() && #[trigger] span_contains(a[i], x);
                    assert(i > 0);
                    assert(ta[i - 1] == a[i]);
                    assert(span_contains(ta[i - 1], x));
                }
            };
            assert(spans_cover(tb, x) <==> (spans_cover(b, x) && x >= b[0].1)) by {
                if spans_cover(tb, x) {
                    let i = choose|i: int| 0 <= i < tb.len() && #[trigger] span_contains(
                        tb[i],
                        x,
                    );
                    assert(tb[i] == b[i + 1]);
                    assert(span_contains(b[i + 1], x));
                    assert(b[0].1 < b[i + 1].0);
                }
                if spans_cover(b, x) && x >= b[0].1 {
                    let i = choose|i: int| 0 <= i < b.len() && #[trigger] span_contains(b[i], x);
                    assert(i > 0);
                    assert(tb[i - 1] == b[i]);
                    assert(span_contains(tb[i - 1], x));
                }
            };
        };
        lemma_wf_spans_canonical(ta, tb);
        assert forall|i: int| 0 <= i < a.len() implies a[i] == b[i] by {
            if i > 0 {
                assert(ta[i - 1] == tb[i - 1]);
            }
        };
    }
}

/// Raise `a` to `b` if `b` is the larger of the two.
fn set_max<T: RangeIdx>(a: &mut T, b: T)
    ensures
        final(a).key() == if old(a).key() < b.key() {
            b.key()
        } else {
            old(a).key()
        },
{
    if a.lt(b) {
        *a = b;
    }
}

/// A sorted, merged set of half-open intervals over `T`.
pub struct RangeArray<T: RangeIdx> {
    array: Vec<Span<T>>,
}

impl<T: RangeIdx> View for RangeArray<T> {
    type V = Seq<(int, int)>;

    closed spec fn view(&self) -> Seq<(int, int)> {
        Seq::new(self.array@.len(), |i: int| span_view(self.array@[i]))
    }
}

impl<T: RangeIdx> RangeArray<T> {
    /// The canonical-form invariant.
    pub open spec fn wf(&self) -> bool {
        wf_spans(self@)
    }

    /// The integer `x` lies in one of the stored intervals.
    pub open spec fn covers(&self, x: int) -> bool {
        spans_cover(self@, x)
    }

    pub fn new() -> (r: Self)
        ensures
            r@ =~= Seq::<(int, int)>::empty(),
            r.wf(),
    {
        RangeArray { array: Vec::new() }
    }

    /// The stored intervals, in ascending order.
    pub fn spans(&self) -> (r: &Vec<Span<T>>)
        ensures
            r@.len() == self@.len(),
            forall|i: int| 0 <= i < r@.len() ==> span_view(#[trigger] r@[i]) == self@[i],
    {
        &self.array
    }

    /// Take the whole contents out, leaving this set empty.
    pub fn clear_into(&mut self) -> (r: Self)
        ensures
            final(self)@ =~= Seq::<(int, int)>::empty(),
            r@ == old(self)@,
    {
        let mut taken: Vec<Span<T>> = Vec::new();
        core::mem::swap(&mut taken, &mut self.array);
        RangeArray { array: taken }
    }

    pub fn is_empty(&self) -> (r: bool)
        ensures
            r <==> self@.len() == 0,
    {
        self.array.is_empty()
    }

    /// Add the interval `[r.start, r.end)` to the covered set, merging with
    /// every stored interval it overlaps or touches.  An empty interval
    /// leaves the set unchanged.
    pub fn union(&mut self, r: &Span<T>)
        requires
            old(self).wf(),
        ensures
            final(self).wf(),
            forall|x: int|
                #[trigger] spans_cover(final(self)@, x) <==> spans_cover(old(self)@, x)
                    || span_contains(span_view(*r), x),
    {
        let ghost s: Seq<(int, int)> = self@;
        let ghost rlo: int = r.start.key();
        let ghost rhi: int = r.end.key();
        if !r.start.lt(r.end) {
            assert(forall|x: int| !span_contains(span_view(*r), x));
            return ;
        }
        let n = self.array.len();
        let mut out: Vec<Span<T>> = Vec::new();
        let mut i: usize = 0;
        // keep the intervals that end strictly before the new one starts
        loop
            invariant
                self@ == s,
                wf_spans(s),
                n == s.len(),
                rlo < rhi,
                rlo == r.start.key(),
                rhi == r.end.key(),
                0 <= i <= n,
                out@.len() == i,
                forall|j: int| 0 <= j < i ==> span_view(#[trigger] out@[j]) == s[j],
                forall|j: int| 0 <= j < i ==> (#[trigger] s[j]).1 < rlo,
            ensures
                self@ == s,
                0 <= i <= n,
                out@.len() == i,
                forall|j: int| 0 <= j < i ==> span_view(#[trigger] out@[j]) == s[j],
                forall|j: int| 0 <= j < i ==> (#[trigger] s[j]).1 < rlo,
                i < n ==> s[i as int].1 >= rlo,
            decreases n - i,
        {
            if i >= n {
                break ;
            }
            let sp = self.array[i];
            assert(span_view(sp) == s[i as int]);
            if !sp.end.lt(r.start) {
                break ;
            }
            out.push(sp);
            i += 1;
        }
        let ghost i1: int = i as int;
        // grow the new interval over everything it overlaps or touches
        let mut lo = r.start;
        let mut hi = r.end;
        loop
            invariant
                self@ == s,
                wf_spans(s),
                n == s.len(),
                rlo < rhi,
                rlo == r.start.key(),
                rhi == r.end.key(),
                0 <= i1 <= i <= n,
                i1 < n ==> s[i1].1 >= rlo,
                lo.key() <= rlo,
                rhi <= hi.key(),
                i == i1 ==> lo.key() == rlo && hi.key() == rhi,
                forall|j: int| 0 <= j < i1 ==> (#[trigger] s[j]).1 < lo.key(),
                forall|x: int|
                    #[trigger] span_contains((lo.key(), hi.key()), x) <==> (span_contains(
                        (rlo, rhi),
                        x,
                    ) || exists|j: int| i1 <= j < i && #[trigger] span_contains(s[j], x)),
            ensures
                self@ == s,
                0 <= i1 <= i <= n,
                lo.key() <= rlo,
                rhi <= hi.key(),
                forall|j: int| 0 <= j < i1 ==> (#[trigger] s[j]).1 < lo.key(),
                forall|x: int|
                    #[trigger] span_contains((lo.key(), hi.key()), x) <==> (span_contains(
                        (rlo, rhi),
                        x,
                    ) || exists|j: int| i1 <= j < i && #[trigger] span_contains(s[j], x)),
                i < n ==> s[i as int].0 > hi.key(),
            decreases n - i,
        {
            if i >= n {
                break ;
            }
            {
                let sp0 = self.array[i];
                assert(span_view(sp0) == s[i as int]);
                if !sp0.start.le(hi) {
                    break ;
                }
            }
            let ghost lo0: int = lo.key();
            let ghost hi0: int = hi.key();
            let sp = self.array[i];
            assert(span_view(sp) == s[i as int]);
            if sp.start.lt(lo) {
                lo = sp.start;
            }
            set_max(&mut hi, sp.end);
            proof {
                let a = s[i as int].0;
                let b = s[i as int].1;
                // the first merged interval reaches back to the new one;
                // later ones start inside the grown interval
                if i as int == i1 {
                    assert(b >= rlo);
                } else {
                    assert(span_contains(s[i - 1], s[i - 1].0));
                    assert(span_contains((lo0, hi0), s[i - 1].0));
                    assert(a > s[i - 1].1);
                }
                assert forall|x: int| #[trigger]
                    span_contains((lo.key(), hi.key()), x) <==> (span_contains((rlo, rhi), x)
                        || exists|j: int|
                        i1 <= j < i + 1 && #[trigger] span_contains(s[j], x)) by {
                    if span_contains((lo.key(), hi.key()), x) {
                        if span_contains((lo0, hi0), x) {
                            if !span_contains((rlo, rhi), x) {
                                let j = choose|j: int|
                                    i1 <= j < i && #[trigger] span_contains(s[j], x);
                                assert(span_contains(s[j], x));
                            }
                        } else {
                            if x < lo0 {
                                if i as int == i1 {
                                    assert(lo0 == rlo);
                                    assert(b >= rlo);
                                } else {
                                    assert(span_contains(s[i - 1], s[i - 1].0));
                                    assert(span_contains((lo0, hi0), s[i - 1].0));
                                    assert(b > a > s[i - 1].1 >= s[i - 1].0 >= lo0);
                                }
                                assert(span_contains(s[i as int], x));
                            } else {
                                assert(a <= hi0 <= x);
                                assert(span_contains(s[i as int], x));
                            }
                        }
                    }
                    if span_contains((rlo, rhi), x) {
                        assert(span_contains((lo0, hi0), x));
                        assert(span_contains((lo.key(), hi.key()), x));
                    }
                    if exists|j: int| i1 <= j < i + 1 && #[trigger] span_contains(s[j], x) {
                        let j = choose|j: int| i1 <= j < i + 1 && #[trigger] span_contains(
                            s[j],
                            x,
                        );
                        if j < i {
                            assert(span_contains((lo0, hi0), x));
                        } else {
                            assert(span_contains((a, b), x));
                        }
                        assert(span_contains((lo.key(), hi.key()), x));
                    }
                };
            }
            i += 1;
        }
        let ghost i2: int = i as int;
        assert(i2 < n ==> s[i2].0 > hi.key());
        out.push(Span { start: lo, end: hi });
        // keep the intervals that start after the grown one ends
        while i < n
            invariant
                self@ == s,
                n == s.len(),
                0 <= i1 < out@.len(),
                i1 + 1 <= i2 + 1 <= i + 1 <= n + 1,
                out@.len() == i1 + 1 + (i - i2),
                forall|j: int| 0 <= j < i1 ==> span_view(#[trigger] out@[j]) == s[j],
                span_view(out@[i1]) == (lo.key(), hi.key()),
                forall|j: int|
                    i1 < j < out@.len() ==> span_view(#[trigger] out@[j]) == s[j - i1 - 1 + i2],
            decreases n - i,
        {
            let sp = self.array[i];
            out.push(sp);
            i += 1;
        }
        proof {
            // everything before the grown interval ends before it starts, and
            // everything after it starts after it ends
            assert(forall|j: int| 0 <= j < i1 ==> (#[trigger] s[j]).1 < lo.key());
            assert(forall|j: int| i2 <= j < n ==> hi.key() < (#[trigger] s[j]).0) by {
                assert forall|j: int| i2 <= j < n implies hi.key() < (#[trigger] s[j]).0 by {
                    if j > i2 {
                        assert(s[i2].0 <= s[i2].1 < s[j].0) by {
                            assert(wf_spans(s));
                        };
                    }
                }
            };
        }
        self.array = out;
        proof {
            let v = self@;
            assert(v.len() == i1 + 1 + (n - i2));
            assert forall|p: int, q: int| 0 <= p < q < v.len() implies (#[trigger] v[p]).1 < (
            #[trigger] v[q]).0 by {
                if q < i1 {
                    assert(v[p] == s[p] && v[q] == s[q]);
                } else if q == i1 {
                    assert(v[p].1 == s[p].1 < lo.key());
                } else {
                    assert(v[q] == s[q - i1 - 1 + i2]);
                    if p < i1 {
                        assert(v[p] == s[p]);
                        assert(s[p].1 < rlo <= hi.key() < s[q - i1 - 1 + i2].0);
                    } else if p == i1 {
                        assert(v[p].1 == hi.key() < s[q - i1 - 1 + i2].0);
                    } else {
                        assert(v[p] == s[p - i1 - 1 + i2]);
                    }
                }
            };
            assert forall|x: int| #[trigger]
                spans_cover(v, x) <==> (spans_cover(s, x) || span_contains((rlo, rhi), x)) by {
                if spans_cover(v, x) {
                    let k = choose|k: int| 0 <= k < v.len() && #[trigger] span_contains(v[k], x);
                    if k < i1 {
                        assert(span_contains(s[k], x));
                        assert(spans_cover(s, x));
                    } else if k == i1 {
                        assert(span_contains((lo.key(), hi.key()), x));
                        if !span_contains((rlo, rhi), x) {
                            let j = choose|j: int|
                                i1 <= j < i2 && #[trigger] span_contains(s[j], x);
                            assert(span_contains(s[j], x));
                            assert(spans_cover(s, x));
                        }
                    } else {
                        assert(span_contains(s[k - i1 - 1 + i2], x));
                        assert(spans_cover(s, x));
                    }
                }
                if span_contains((rlo, rhi), x) {
                    assert(span_contains((lo.key(), hi.key()), x));
                    assert(span_contains(v[i1], x));
                    assert(spans_cover(v, x));
                }
                if spans_cover(s, x) {
                    let j = choose|j: int| 0 <= j < s.len() && #[trigger] span_contains(s[j], x);
                    if j < i1 {
                        assert(span_contains(v[j], x));
                        assert(spans_cover(v, x));
                    } else if j < i2 {
                        assert(span_contains((lo.key(), hi.key()), x));
                        assert(span_contains(v[i1], x));
                        assert(spans_cover(v, x));
                    } else {
                        assert(span_contains(v[j - i2 + i1 + 1], x));
                        assert(spans_cover(v, x));
                    }
                }
            };
        }
    }
}

impl<T: RangeIdx> Default for RangeArray<T> {
    /// The empty set.
    fn default() -> (r: Self)
        ensures
            r@ =~= Seq::<(int, int)>::empty(),
            r.wf(),
    {
        RangeArray::new()
    }
}

} // verus!
