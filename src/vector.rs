use vstd::prelude::*;

use crate::borrow::Borrow;
use crate::region::{concat, lemma_concat_append, lemma_concat_split};
use crate::{lemma_weights_push, lemma_weights_upto_le, weight, weights, weights_upto, Columnar, ColumnarBuf, Val};

verus! {

/// Inner sequences per outer one that a new buffer is sized for.
pub const FAN_OUT: usize = 8;

/// Elements a new nested buffer is sized for: `FAN_OUT` per sequence,
/// saturating at `usize::MAX`.
pub open spec fn inner_hint(s: usize) -> usize {
    if s <= usize::MAX / FAN_OUT {
        (s * FAN_OUT) as usize
    } else {
        usize::MAX
    }
}

/// Sequences stored with their elements laid end to end in a nested
/// buffer, and the end offset of each sequence.
pub struct VecBuf<T: Columnar> {
    idx: Vec<usize>,
    buf: T::Buf,
    lists: Ghost<Seq<Seq<Val>>>,
}

impl<T: Columnar> VecBuf<T> {
    /// The sequences stored, in order, each as the values of its elements.
    pub closed spec fn lists(&self) -> Seq<Seq<Val>> {
        self.lists@
    }

    /// The nested buffer that holds the elements.
    pub closed spec fn inner(&self) -> T::Buf {
        self.buf
    }

    /// For each sequence, the number of elements stored up to and
    /// including it.
    pub closed spec fn offsets(&self) -> Seq<usize> {
        self.idx@
    }

    pub closed spec fn inv(&self) -> bool {
        &&& self.buf.wf()
        &&& self.idx@.len() == self.lists@.len()
        &&& self.buf.vals() == concat(self.lists@)
        &&& weights(self.buf.vals()) == weights(self.lists@.map_values(|xs: Seq<Val>| Val::List(xs)))
        &&& forall|i: int|
            0 <= i < self.idx@.len() ==> #[trigger] self.idx@[i] == concat(self.lists@.take(i + 1)).len()
    }

    /// The nested buffer holds the elements of the sequences, end to end.
    pub proof fn lemma_inner_holds_lists(&self)
        requires
            self.inv(),
        ensures
            self.inner().wf(),
            self.inner().vals() == concat(self.lists()),
    {
    }

    /// The offsets never decrease, and there is one per sequence.
    pub proof fn lemma_offsets_monotone(&self)
        requires
            self.inv(),
        ensures
            self.offsets().len() == self.lists().len(),
            forall|i: int|
                0 <= i < self.offsets().len() ==> #[trigger] self.offsets()[i] == concat(
                    self.lists().take(i + 1),
                ).len(),
            forall|i: int, j: int|
                0 <= i <= j < self.offsets().len() ==> self.offsets()[i] <= self.offsets()[j],
    {
        let ls = self.lists@;
        assert forall|i: int, j: int|
            0 <= i <= j < self.offsets().len() implies self.offsets()[i] <= self.offsets()[j] by {
            let a = ls.take(i + 1);
            let b = ls.subrange(i + 1, j + 1);
            assert(ls.take(j + 1) =~= a + b);
            lemma_concat_append(a, b);
            assert(self.idx@[i] == concat(a).len());
            assert(self.idx@[j] == concat(ls.take(j + 1)).len());
        }
    }
}

/// A read view of one stored sequence: yields the read views of its
/// elements in order, from the nested buffer.
pub struct IdxIter<'a, T: Columnar> {
    end: usize,
    current: usize,
    buf: &'a T::Buf,
}

impl<'a, T: Columnar> IdxIter<'a, T> {
    #[verifier::type_invariant]
    spec fn in_bounds(&self) -> bool {
        &&& self.current <= self.end <= self.buf.vals().len()
        &&& self.buf.wf()
    }

    /// The values of the elements not yet yielded.
    pub closed spec fn rest(&self) -> Seq<Val> {
        self.buf.vals().subrange(self.current as int, self.end as int)
    }

    /// The next element's read view, or `None` once all are yielded.
    pub fn next(&mut self) -> (r: Option<<T::Buf as ColumnarBuf<T>>::ReadItem<'a>>)
        ensures
            old(self).rest().len() == 0 ==> r is None && final(self).rest() == old(self).rest(),
            old(self).rest().len() > 0 ==> (r matches Some(x) && <T::Buf as ColumnarBuf<T>>::read_val(&x)
                == old(self).rest()[0]),
            old(self).rest().len() > 0 ==> final(self).rest() == old(self).rest().drop_first(),
    {
        proof {
            use_type_invariant(&*self);
        }
        if self.current == self.end {
            None
        } else {
            let ret = self.buf.idx(self.current);
            self.current = self.current + 1;
            proof {
                assert(self.rest() =~= old(self).rest().drop_first());
            }
            Some(ret)
        }
    }

    /// The exact number of elements left, as lower and upper bound.
    pub fn size_hint(&self) -> (r: (usize, Option<usize>))
        ensures
            r.0 == self.rest().len(),
            r.1 == Some(r.0),
    {
        proof {
            use_type_invariant(self);
        }
        let len = self.end - self.current;
        (len, Some(len))
    }
}

/// Step `k` of a drain: the view had something left, `items[k]` is its
/// first value, and the view then holds the rest.
pub open spec fn yields_next(rests: Seq<Seq<Val>>, items: Seq<Val>, k: int) -> bool {
    &&& rests[k].len() > 0
    &&& items[k] == rests[k][0]
    &&& rests[k + 1] == rests[k].drop_first()
}

proof fn lemma_drain_prefix(rests: Seq<Seq<Val>>, items: Seq<Val>, m: int)
    requires
        rests.len() == items.len() + 1,
        forall|k: int| 0 <= k < items.len() ==> #[trigger] yields_next(rests, items, k),
        0 <= m <= items.len(),
    ensures
        m <= rests[0].len(),
        rests[m] == rests[0].skip(m),
        items.take(m) == rests[0].take(m),
    decreases m,
{
    let first = rests[0];
    if m == 0 {
        assert(first.skip(0) =~= first);
        assert(items.take(0) =~= first.take(0));
    } else {
        lemma_drain_prefix(rests, items, m - 1);
        assert(yields_next(rests, items, m - 1));
        assert(first.skip(m - 1).len() > 0);
        assert(rests[m] =~= first.skip(m));
        assert(items[m - 1] == first[m - 1]);
        assert(items.take(m) =~= items.take(m - 1).push(items[m - 1]));
        assert(first.take(m) =~= first.take(m - 1).push(first[m - 1]));
    }
}

/// Draining a read view of a stored sequence with `next` yields exactly
/// its elements, in order, and nothing for an empty one. `rests[k]` is what
/// the view has left (`IdxIter::rest`) after `k` calls of `next`, `items[k]`
/// the value of the `k`-th element yielded; at the end nothing is left.
pub proof fn lemma_drain_yields_all(rests: Seq<Seq<Val>>, items: Seq<Val>)
    requires
        rests.len() == items.len() + 1,
        forall|k: int| 0 <= k < items.len() ==> #[trigger] yields_next(rests, items, k),
        rests.last().len() == 0,
    ensures
        items == rests[0],
{
    let n = items.len() as int;
    lemma_drain_prefix(rests, items, n);
    assert(rests[n] == rests.last());
    assert(rests[0].skip(n).len() == 0);
    assert(items.take(n) =~= items);
    assert(rests[0].take(n) =~= rests[0]);
}

impl<T: Columnar> Columnar for Vec<T> {
    type Buf = VecBuf<T>;
}

impl<T: Columnar> ColumnarBuf<Vec<T>> for VecBuf<T> {
    type ReadItem<'a> = IdxIter<'a, T>;

    open spec fn vals(&self) -> Seq<Val> {
        self.lists().map_values(|xs: Seq<Val>| Val::List(xs))
    }

    open spec fn wf(&self) -> bool {
        self.inv()
    }

    open spec fn read_val<'a>(r: &IdxIter<'a, T>) -> Val {
        Val::List(r.rest())
    }

    open spec fn sized_for(&self, s: usize) -> bool {
        self.inner().sized_for(inner_hint(s))
    }

    fn copy(&mut self, c: &[T]) {
        let ghost xs = c@.map_values(|x: T| x.val());
        let ghost before = self.buf.vals();
        let ghost n: int = self.idx@.len() as int;
        proof {
            lemma_weights_push(self.vals(), Val::List(xs));
        }
        let mut j: usize = 0;
        while j < c.len()
            invariant
                0 <= j <= c@.len(),
                xs == c@.map_values(|x: T| x.val()),
                self.buf.wf(),
                self.buf.vals() == before + xs.take(j as int),
                weights(self.buf.vals()) == weights(before) + weights_upto(xs, j as nat),
                weights(before) + weights(xs) <= usize::MAX,
                self.idx == old(self).idx,
                self.lists == old(self).lists,
            decreases c@.len() - j,
        {
            let e = c[j].borrow();
            proof {
                lemma_weights_upto_le(xs, (j + 1) as nat);
                lemma_weights_push(self.buf.vals(), xs[j as int]);
            }
            self.buf.copy(e);
            j = j + 1;
            proof {
                assert(xs.take(j as int) =~= xs.take(j - 1).push(xs[j - 1]));
            }
        }
        let len = self.buf.len();
        self.idx.push(len);
        self.lists = Ghost(self.lists@.push(xs));
        proof {
            let ls = self.lists@;
            let old_ls = old(self).lists@;
            assert(xs.take(j as int) =~= xs);
            assert(ls.drop_last() =~= old_ls);
            assert(concat(ls) == concat(old_ls) + xs);
            assert(self.vals() =~= old(self).vals().push(Val::List(xs)));
            assert(ls.take(n + 1) =~= ls);
            assert forall|i: int| 0 <= i < self.idx@.len() implies #[trigger] self.idx@[i]
                == concat(ls.take(i + 1)).len() by {
                if i < n {
                    assert(ls.take(i + 1) =~= old_ls.take(i + 1));
                }
            }
        }
    }

    fn idx(&self, i: usize) -> (r: IdxIter<'_, T>) {
        let ghost ls = self.lists@;
        let start: usize = if i == 0 {
            0
        } else {
            self.idx[i - 1]
        };
        let end: usize = self.idx[i];
        proof {
            lemma_concat_split(ls, i as int);
            if i == 0 {
                assert(ls.take(0) =~= Seq::<Seq<Val>>::empty());
                assert(concat(Seq::<Seq<Val>>::empty()) == Seq::<Val>::empty());
            }
            assert(start == concat(ls.take(i as int)).len());
            assert(self.buf.vals().subrange(start as int, end as int) =~= ls[i as int]);
        }
        IdxIter { end, current: start, buf: &self.buf }
    }

    fn len(&self) -> (r: usize) {
        self.idx.len()
    }

    fn with_capacity(s: usize) -> (r: Self) {
        let idx: Vec<usize> = Vec::with_capacity(s);
        let inner: usize = if s <= usize::MAX / FAN_OUT {
            s * FAN_OUT
        } else {
            usize::MAX
        };
        assert(inner == inner_hint(s));
        let buf = T::Buf::with_capacity(inner);
        let r = VecBuf { idx, buf, lists: Ghost(Seq::empty()) };
        proof {
            assert(concat(Seq::<Seq<Val>>::empty()) == Seq::<Val>::empty());
            assert(r.vals() =~= Seq::<Val>::empty());
        }
        r
    }

    fn clear(&mut self) {
        self.idx.clear();
        self.buf.clear();
        self.lists = Ghost(Seq::empty());
        proof {
            assert(concat(Seq::<Seq<Val>>::empty()) == Seq::<Val>::empty());
            assert(self.vals() =~= Seq::<Val>::empty());
        }
    }
}

} // verus!
