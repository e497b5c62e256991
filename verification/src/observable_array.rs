//! A fixed-size array of values with per-observer change tracking.
//!
//! `Base` is the synchronous heart of the observable register store: a vector
//! of values plus a table of observer slots.  Every write records the written
//! index interval in the dirty set of every observer except the writer's own,
//! and reports which observers must be woken.  An asynchronous shell owns the
//! lock and the wakeup tokens; all decisions about what each observer sees are
//! made here.

use crate::range_array::{span_contains, spans_cover, wf_spans, RangeArray, Span};
use vstd::prelude::*;

verus! {

/// The bookkeeping for one observer: the index intervals written by others
/// since this observer last drained.
pub struct Observer {
    changed: RangeArray<usize>,
}

/// A fixed-length array of values together with a table of observer slots.
pub struct Base<T> {
    array: Vec<T>,
    observers: Vec<Option<Observer>>,
}

/// Every index covered by `d` lies below `len`.
pub open spec fn dirty_in_bounds(d: Seq<(int, int)>, len: int) -> bool {
    forall|x: int| #[trigger] spans_cover(d, x) ==> 0 <= x < len
}

/// A live slot holds a canonical dirty set that stays within the array.
pub open spec fn slot_wf(o: Option<Seq<(int, int)>>, len: int) -> bool {
    o is Some ==> wf_spans(o.unwrap()) && dirty_in_bounds(o.unwrap(), len)
}

/// The dirty set `post` extends `pre` by exactly the interval `[lo, hi)`.
pub open spec fn dirty_extended(
    pre: Option<Seq<(int, int)>>,
    post: Option<Seq<(int, int)>>,
    lo: int,
    hi: int,
) -> bool {
    &&& pre is Some
    &&& post is Some
    &&& wf_spans(post.unwrap())
    &&& forall|x: int|
        #[trigger] spans_cover(post.unwrap(), x) <==> spans_cover(pre.unwrap(), x) || (lo <= x
            < hi)
}

impl<T: Copy> Base<T> {
    /// The stored values.
    pub closed spec fn elems(&self) -> Seq<T> {
        self.array@
    }

    /// The dirty sets, one per observer slot; `None` is a released slot.
    pub closed spec fn obs(&self) -> Seq<Option<Seq<(int, int)>>> {
        Seq::new(
            self.observers@.len(),
            |i: int|
                match self.observers@[i] {
                    Some(ob) => Some(ob.changed@),
                    None => None,
                },
        )
    }

    /// Every live dirty set is canonical and lies within the array bounds.
    pub open spec fn wf(&self) -> bool {
        forall|i: int|
            0 <= i < self.obs().len() ==> slot_wf(
                #[trigger] self.obs()[i],
                self.elems().len() as int,
            )
    }

    /// Allocate an array of `len` copies of `fill`, with no observers yet.
    pub fn new(len: usize, fill: T) -> (r: Self)
        ensures
            r.elems().len() == len,
            forall|k: int| 0 <= k < len ==> #[trigger] r.elems()[k] == fill,
            r.obs().len() == 0,
            r.wf(),
    {
        let mut array: Vec<T> = Vec::new();
        let mut k: usize = 0;
        while k < len
            invariant
                k <= len,
                array@.len() == k,
                forall|t: int| 0 <= t < k ==> #[trigger] array@[t] == fill,
            decreases len - k,
        {
            array.push(fill);
            k += 1;
        }
        Base { array, observers: Vec::new() }
    }

    /// Allocate an observer slot with an empty dirty set, reusing the lowest
    /// released slot when one exists and growing the table by one otherwise.
    pub fn get_observer(&mut self) -> (idx: usize)
        requires
            old(self).wf(),
        ensures
            final(self).wf(),
            final(self).elems() == old(self).elems(),
            old(self).obs().len() <= final(self).obs().len() <= old(self).obs().len() + 1,
            idx < final(self).obs().len(),
            final(self).obs()[idx as int] == Some(Seq::<(int, int)>::empty()),
            forall|j: int|
                0 <= j < old(self).obs().len() && j != idx ==> final(self).obs()[j] == old(self).obs()[j],
            idx < old(self).obs().len() ==> old(self).obs()[idx as int] is None && final(self).obs().len() == old(self).obs().len(),
            idx >= old(self).obs().len() ==> idx == old(self).obs().len() && final(self).obs().len() == old(self).obs().len() + 1,
            forall|j: int| 0 <= j < idx ==> old(self).obs()[j] is Some,
    {
        let n = self.observers.len();
        let mut idx: usize = 0;
        loop
            invariant
                self == old(self),
                n == self.observers@.len(),
                0 <= idx <= n,
                forall|j: int| 0 <= j < idx ==> self.obs()[j] is Some,
            ensures
                self == old(self),
                0 <= idx <= n,
                idx < n ==> self.obs()[idx as int] is None,
                forall|j: int| 0 <= j < idx ==> self.obs()[j] is Some,
            decreases n - idx,
        {
            if idx >= n {
                break ;
            }
            if self.observers[idx].is_none() {
                assert(self.obs()[idx as int] is None);
                break ;
            }
            assert(self.obs()[idx as int] is Some);
            idx += 1;
        }
        let fresh = Observer { changed: RangeArray::new() };
        let ghost empty_set: Seq<(int, int)> = fresh.changed@;
        if idx < self.observers.len() {
            self.observers[idx] = Some(fresh);
        } else {
            self.observers.push(Some(fresh));
        }
        proof {
            assert(empty_set =~= Seq::<(int, int)>::empty());
            assert(self.obs()[idx as int] == Some(empty_set));
            assert(self.elems() == old(self).elems());
            assert forall|j: int|
                0 <= j < old(self).obs().len() && j != idx implies self.obs()[j] == old(self).obs()[j] by {
                assert(self.observers@[j] == old(self).observers@[j]);
            };
            assert forall|i: int| 0 <= i < self.obs().len() implies slot_wf(
                #[trigger] self.obs()[i],
                self.elems().len() as int,
            ) by {
                if i == idx {
                    assert(self.obs()[i] == Some(empty_set));
                } else {
                    assert(self.obs()[i] == old(self).obs()[i]);
                    assert(slot_wf(old(self).obs()[i], old(self).elems().len() as int));
                }
            };
        }
        idx
    }

    /// Release an observer slot for reuse.
    pub fn release(&mut self, index: usize)
        requires
            old(self).wf(),
            index < old(self).obs().len(),
        ensures
            final(self).wf(),
            final(self).elems() == old(self).elems(),
            final(self).obs().len() == old(self).obs().len(),
            final(self).obs()[index as int] is None,
            forall|j: int|
                0 <= j < old(self).obs().len() && j != index ==> final(self).obs()[j] == old(self).obs()[j],
    {
        self.observers[index] = None;
        proof {
            assert(self.obs()[index as int] is None);
            assert forall|j: int|
                0 <= j < old(self).obs().len() && j != index implies self.obs()[j] == old(self).obs()[j] by {
                assert(self.observers@[j] == old(self).observers@[j]);
            };
            assert forall|i: int| 0 <= i < self.obs().len() implies slot_wf(
                #[trigger] self.obs()[i],
                self.elems().len() as int,
            ) by {
                if i != index {
                    assert(self.obs()[i] == old(self).obs()[i]);
                    assert(slot_wf(old(self).obs()[i], old(self).elems().len() as int));
                }
            };
        }
    }

    /// The array length.
    pub fn len(&self) -> (r: usize)
        ensures
            r == self.elems().len(),
    {
        self.array.len()
    }

    pub fn is_empty(&self) -> (r: bool)
        ensures
            r <==> self.elems().len() == 0,
    {
        self.array.is_empty()
    }

    /// Read one value.
    pub fn get(&self, index: usize) -> (r: T)
        requires
            index < self.elems().len(),
        ensures
            r == self.elems()[index as int],
    {
        self.array[index]
    }

    /// Copy the values in `[start, start + count)` out.
    pub fn read_slice(&self, start: usize, count: usize) -> (r: Vec<T>)
        requires
            start + count <= self.elems().len(),
        ensures
            r@ =~= self.elems().subrange(start as int, start + count),
    {
        let n = self.array.len();
        let mut r: Vec<T> = Vec::new();
        let mut k: usize = 0;
        while k < count
            invariant
                n == self.elems().len(),
                start + count <= n,
                k <= count,
                r@.len() == k,
                forall|t: int| 0 <= t < k ==> #[trigger] r@[t] == self.elems()[start + t],
            decreases count - k,
        {
            r.push(self.array[start + k]);
            k += 1;
        }
        r
    }

    /// Write `data` into `[start, start + data.len())`; union that interval
    /// into the dirty set of every live observer other than `exclude`, and
    /// return the slots of the observers to wake, in ascending order.
    pub fn update(&mut self, start: usize, data: &[T], exclude: usize) -> (wakes: Vec<usize>)
        requires
            old(self).wf(),
            start + data@.len() <= old(self).elems().len(),
        ensures
            final(self).wf(),
            final(self).elems().len() == old(self).elems().len(),
            forall|k: int|
                0 <= k < old(self).elems().len() ==> #[trigger] final(self).elems()[k] == if start
                    <= k < start + data@.len() {
                    data@[k - start]
                } else {
                    old(self).elems()[k]
                },
            final(self).obs().len() == old(self).obs().len(),
            forall|j: int|
                0 <= j < old(self).obs().len() && (j == exclude || old(self).obs()[j] is None)
                    ==> final(self).obs()[j] == old(self).obs()[j],
            forall|j: int|
                0 <= j < old(self).obs().len() && j != exclude && old(self).obs()[j] is Some
                    ==> dirty_extended(
                    #[trigger] old(self).obs()[j],
                    final(self).obs()[j],
                    start as int,
                    start + data@.len(),
                ),
            forall|k: int|
                0 <= k < wakes@.len() ==> (#[trigger] wakes@[k]) < old(self).obs().len()
                    && wakes@[k] != exclude && old(self).obs()[wakes@[k] as int] is Some,
            forall|j: usize|
                j < old(self).obs().len() && j != exclude && old(self).obs()[j as int] is Some
                    ==> #[trigger] wakes@.contains(j),
            forall|k1: int, k2: int|
                0 <= k1 < k2 < wakes@.len() ==> #[trigger] wakes@[k1] < #[trigger] wakes@[k2],
    {
        let n = self.array.len();
        let len = data.len();
        let mut k: usize = 0;
        while k < len
            invariant
                len == data@.len(),
                start + len <= n,
                n == self.array@.len(),
                self.array@.len() == old(self).elems().len(),
                k <= len,
                self.observers == old(self).observers,
                forall|t: int| 0 <= t < k ==> #[trigger] self.array@[start + t] == data@[t],
                forall|t: int|
                    0 <= t < self.array@.len() && !(start <= t < start + k)
                        ==> #[trigger] self.array@[t] == old(self).elems()[t],
            decreases len - k,
        {
            self.array[start + k] = data[k];
            k += 1;
        }
        let ghost arr_done: Seq<T> = self.array@;
        proof {
            assert forall|q: int| 0 <= q < arr_done.len() implies #[trigger] arr_done[q] == (
            if start <= q < start + len {
                data@[q - start]
            } else {
                old(self).elems()[q]
            }) by {
                if start <= q < start + len {
                    assert(arr_done[start + (q - start)] == data@[q - start]);
                }
            };
            assert(self.obs() == old(self).obs());
        }
        let mut wakes: Vec<usize> = Vec::new();
        let m = self.observers.len();
        let mut j: usize = 0;
        while j < m
            invariant
                old(self).wf(),
                m == self.observers@.len(),
                m == old(self).obs().len(),
                self.array@ == arr_done,
                arr_done.len() == old(self).elems().len(),
                n == arr_done.len(),
                start + len <= n,
                len == data@.len(),
                j <= m,
                self.obs().len() == m,
                forall|t: int|
                    j <= t < m ==> #[trigger] self.observers@[t] == old(self).observers@[t],
                forall|t: int|
                    0 <= t < j && (t == exclude || old(self).obs()[t] is None) ==> #[trigger] self
                        .obs()[t] == old(self).obs()[t],
                forall|t: int|
                    0 <= t < j && t != exclude && old(self).obs()[t] is Some ==> dirty_extended(
                        #[trigger] old(self).obs()[t],
                        self.obs()[t],
                        start as int,
                        start + len,
                    ),
                forall|k2: int|
                    0 <= k2 < wakes@.len() ==> (#[trigger] wakes@[k2]) < j && wakes@[k2] != exclude
                        && old(self).obs()[wakes@[k2] as int] is Some,
                forall|t: usize|
                    t < j && t != exclude && old(self).obs()[t as int] is Some
                        ==> #[trigger] wakes@.contains(t),
                forall|k1: int, k2: int|
                    0 <= k1 < k2 < wakes@.len() ==> #[trigger] wakes@[k1] < #[trigger] wakes@[k2],
            decreases m - j,
        {
            let ghost observers0 = self.observers@;
            let ghost obs0 = self.obs();
            if j != exclude {
                assert(self.observers@[j as int] == old(self).observers@[j as int]);
                assert(self.obs()[j as int] == old(self).obs()[j as int]);
                let slot = self.observers[j].take();
                match slot {
                    Some(mut ob) => {
                        assert(old(self).obs()[j as int] == Some(ob.changed@));
                        assert(slot_wf(old(self).obs()[j as int], arr_done.len() as int));
                        assert(wf_spans(ob.changed@));
                        ob.changed.union(&Span { start, end: start + len });
                        self.observers[j] = Some(ob);
                        let ghost old_wakes = wakes@;
                        wakes.push(j);
                        proof {
                            assert(self.obs()[j as int] == Some(ob.changed@));
                            assert(dirty_extended(
                                old(self).obs()[j as int],
                                self.obs()[j as int],
                                start as int,
                                start + len,
                            ));
                            assert forall|t: usize|
                                t < j + 1 && t != exclude && old(self).obs()[t as int] is Some
                                implies #[trigger] wakes@.contains(t) by {
                                if t < j {
                                    assert(old_wakes.contains(t));
                                    let w = choose|w: int|
                                        0 <= w < old_wakes.len() && old_wakes[w] == t;
                                    assert(wakes@[w] == t);
                                } else {
                                    assert(wakes@[wakes@.len() - 1] == t);
                                }
                            };
                        }
                    },
                    None => {
                        assert(old(self).obs()[j as int] is None);
                        self.observers[j] = None;
                        proof {
                            assert(self.obs()[j as int] is None);
                            assert(self.obs()[j as int] == old(self).obs()[j as int]);
                            assert forall|t: usize|
                                t < j + 1 && t != exclude && old(self).obs()[t as int] is Some
                                implies #[trigger] wakes@.contains(t) by {
                                assert(t != j);
                            };
                        }
                    },
                }
                proof {
                    assert forall|t: int| 0 <= t < m && t != j implies self.observers@[t]
                        == observers0[t] by {};
                    assert forall|t: int| 0 <= t < m && t != j implies #[trigger] self.obs()[t]
                        == obs0[t] by {
                        assert(self.observers@[t] == observers0[t]);
                    };
                }
            }
            j += 1;
        }
        proof {
            assert forall|i: int| 0 <= i < self.obs().len() implies slot_wf(
                #[trigger] self.obs()[i],
                self.elems().len() as int,
            ) by {
                assert(slot_wf(old(self).obs()[i], old(self).elems().len() as int));
                if i == exclude || old(self).obs()[i] is None {
                    assert(self.obs()[i] == old(self).obs()[i]);
                } else {
                    assert(dirty_extended(
                        old(self).obs()[i],
                        self.obs()[i],
                        start as int,
                        start + len,
                    ));
                    assert forall|x: int|
                        #[trigger] spans_cover(self.obs()[i].unwrap(), x) implies 0 <= x
                        < self.elems().len() by {
                        if !spans_cover(old(self).obs()[i].unwrap(), x) {
                            assert(start <= x < start + len);
                        }
                    };
                }
            };
        }
        wakes
    }

    /// Drain the dirty set of the observer in `slot`.  Returns `None`, and
    /// changes nothing, when the set is empty; otherwise hands the non-empty
    /// set over and leaves the slot's set empty, so a second immediate drain
    /// finds nothing until the next foreign write.
    pub fn try_drain(&mut self, slot: usize) -> (r: Option<RangeArray<usize>>)
        requires
            old(self).wf(),
            slot < old(self).obs().len(),
            old(self).obs()[slot as int] is Some,
        ensures
            final(self).wf(),
            final(self).elems() == old(self).elems(),
            final(self).obs().len() == old(self).obs().len(),
            forall|j: int|
                0 <= j < old(self).obs().len() && j != slot ==> final(self).obs()[j] == old(self).obs()[j],
            r is None <==> old(self).obs()[slot as int].unwrap().len() == 0,
            r is None ==> final(self).obs()[slot as int] == old(self).obs()[slot as int],
            r is Some ==> {
                &&& r.unwrap()@ == old(self).obs()[slot as int].unwrap()
                &&& r.unwrap()@.len() > 0
                &&& wf_spans(r.unwrap()@)
                &&& dirty_in_bounds(r.unwrap()@, old(self).elems().len() as int)
                &&& final(self).obs()[slot as int] == Some(Seq::<(int, int)>::empty())
            },
    {
        assert(slot_wf(old(self).obs()[slot as int], old(self).elems().len() as int));
        let taken = self.observers[slot].take();
        let r: Option<RangeArray<usize>>;
        match taken {
            Some(mut ob) => {
                assert(old(self).obs()[slot as int] == Some(ob.changed@));
                if ob.changed.is_empty() {
                    self.observers[slot] = Some(ob);
                    assert(self.obs()[slot as int] == old(self).obs()[slot as int]);
                    r = None;
                } else {
                    let drained = ob.changed.clear_into();
                    self.observers[slot] = Some(ob);
                    assert(self.obs()[slot as int] == Some(ob.changed@));
                    assert(ob.changed@ =~= Seq::<(int, int)>::empty());
                    r = Some(drained);
                }
            },
            None => {
                // unreachable: the slot is live by the precondition
                assert(false);
                r = None;
            },
        }
        proof {
            assert forall|j: int|
                0 <= j < old(self).obs().len() && j != slot implies self.obs()[j] == old(self).obs()[j] by {
                assert(self.observers@[j] == old(self).observers@[j]);
            };
            assert forall|i: int| 0 <= i < self.obs().len() implies slot_wf(
                #[trigger] self.obs()[i],
                self.elems().len() as int,
            ) by {
                assert(slot_wf(old(self).obs()[i], old(self).elems().len() as int));
                if i == slot && !(r is None) {
                    assert(self.obs()[i] is Some);
                    assert(self.obs()[i].unwrap() =~= Seq::<(int, int)>::empty());
                }
            };
        }
        r
    }
}


/// `post` is `pre` with `data` written at `start` by the observer in slot
/// `exclude`: the values are spliced in, every other live observer's dirty
/// set grows by exactly the written interval, and the writer's own slot is
/// untouched.
pub open spec fn base_written<T: Copy>(
    pre: Base<T>,
    post: Base<T>,
    start: int,
    data: Seq<T>,
    exclude: int,
) -> bool {
    &&& post.elems().len() == pre.elems().len()
    &&& forall|k: int|
        0 <= k < pre.elems().len() ==> #[trigger] post.elems()[k] == if start <= k < start
            + data.len() {
            data[k - start]
        } else {
            pre.elems()[k]
        }
    &&& post.obs().len() == pre.obs().len()
    &&& forall|j: int|
        0 <= j < pre.obs().len() && (j == exclude || pre.obs()[j] is None) ==> #[trigger] post.obs()[j]
            == pre.obs()[j]
    &&& forall|j: int|
        0 <= j < pre.obs().len() && j != exclude && pre.obs()[j] is Some ==> dirty_extended(
            #[trigger] pre.obs()[j],
            post.obs()[j],
            start,
            start + data.len(),
        )
}

/// `wakes` lists exactly the live observer slots other than `exclude`.
pub open spec fn wake_list_for<T: Copy>(wakes: Seq<usize>, pre: Base<T>, exclude: int) -> bool {
    &&& forall|k: int|
        0 <= k < wakes.len() ==> (#[trigger] wakes[k]) < pre.obs().len() && wakes[k] != exclude
            && pre.obs()[wakes[k] as int] is Some
    &&& forall|j: usize|
        j < pre.obs().len() && j != exclude && pre.obs()[j as int] is Some
            ==> #[trigger] wakes.contains(j)
}

/// Writes coalesce: extending a dirty set first by `[a, b)` and then by
/// `[c, d)` leaves exactly the union of the starting set and the two
/// intervals.
pub proof fn lemma_dirty_coalesce(
    d0: Option<Seq<(int, int)>>,
    d1: Option<Seq<(int, int)>>,
    d2: Option<Seq<(int, int)>>,
    a: int,
    b: int,
    c: int,
    d: int,
)
    requires
        dirty_extended(d0, d1, a, b),
        dirty_extended(d1, d2, c, d),
    ensures
        d2 is Some,
        forall|x: int|
            #[trigger] spans_cover(d2.unwrap(), x) <==> spans_cover(d0.unwrap(), x) || (a <= x
                < b) || (c <= x < d),
{
}

/// Writes coalesce in general: however many writes extend a dirty set before
/// the observer wakes, the set it drains covers exactly the union of what it
/// covered before and every written interval.  `states` is the chain of the
/// dirty set's values, `writes` the interval each step added.
pub proof fn lemma_dirty_coalesce_chain(
    states: Seq<Option<Seq<(int, int)>>>,
    writes: Seq<(int, int)>,
)
    requires
        states.len() == writes.len() + 1,
        states[0] is Some,
        forall|k: int|
            0 <= k < writes.len() ==> dirty_extended(
                #[trigger] states[k],
                states[k + 1],
                writes[k].0,
                writes[k].1,
            ),
    ensures
        states.last() is Some,
        forall|x: int|
            #[trigger] spans_cover(states.last().unwrap(), x) <==> spans_cover(
                states[0].unwrap(),
                x,
            ) || exists|k: int|
                0 <= k < writes.len() && #[trigger] span_contains(writes[k], x),
    decreases writes.len(),
{
    if writes.len() == 0 {
        assert(states.last() == states[0]);
    } else {
        let m = writes.len() as int;
        let sp = states.subrange(0, m);
        let wp = writes.subrange(0, m - 1);
        assert forall|k: int| 0 <= k < wp.len() implies dirty_extended(
            #[trigger] sp[k],
            sp[k + 1],
            wp[k].0,
            wp[k].1,
        ) by {
            assert(sp[k] == states[k] && sp[k + 1] == states[k + 1] && wp[k] == writes[k]);
        };
        lemma_dirty_coalesce_chain(sp, wp);
        assert(sp.last() == states[m - 1]);
        assert(dirty_extended(states[m - 1], states[m], writes[m - 1].0, writes[m - 1].1));
        assert forall|x: int|
            #[trigger] spans_cover(states.last().unwrap(), x) <==> spans_cover(
                states[0].unwrap(),
                x,
            ) || exists|k: int|
                0 <= k < writes.len() && #[trigger] span_contains(writes[k], x) by {
            if spans_cover(states.last().unwrap(), x) {
                if !spans_cover(states[m - 1].unwrap(), x) {
                    assert(span_contains(writes[m - 1], x));
                } else if !spans_cover(states[0].unwrap(), x) {
                    let k = choose|k: int|
                        0 <= k < wp.len() && #[trigger] span_contains(wp[k], x);
                    assert(span_contains(writes[k], x));
                }
            }
            if spans_cover(states[0].unwrap(), x) {
                assert(spans_cover(states[m - 1].unwrap(), x));
                assert(spans_cover(states.last().unwrap(), x));
            }
            if exists|k: int| 0 <= k < writes.len() && #[trigger] span_contains(writes[k], x) {
                let k = choose|k: int|
                    0 <= k < writes.len() && #[trigger] span_contains(writes[k], x);
                if k < m - 1 {
                    assert(span_contains(wp[k], x));
                    assert(spans_cover(states[m - 1].unwrap(), x));
                }
                assert(spans_cover(states.last().unwrap(), x));
            }
        };
    }
}

} // verus!
