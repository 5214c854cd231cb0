use vstd::layout::size_of;
use vstd::prelude::*;

verus! {

/// The elements of a list of segments, laid end to end.
pub open spec fn concat<T>(segs: Seq<Seq<T>>) -> Seq<T>
    decreases segs.len(),
{
    if segs.len() == 0 {
        Seq::empty()
    } else {
        concat(segs.drop_last()) + segs.last()
    }
}

/// The half-open range `[start, end)` of the concatenation lies inside one
/// segment: the first segment that holds position `start`, or the last
/// segment when `start` is at the very end.
pub open spec fn fits<T>(segs: Seq<Seq<T>>, start: int, end: int) -> bool
    decreases segs.len(),
{
    if segs.len() == 0 {
        false
    } else if segs.len() == 1 || start < segs[0].len() {
        0 <= start <= end <= segs[0].len()
    } else {
        fits(segs.drop_first(), start - segs[0].len(), end - segs[0].len())
    }
}

/// `new` keeps every segment of `old`; the last one may have grown, and
/// further segments may follow it.
pub closed spec fn extends<T>(old: Seq<Seq<T>>, new: Seq<Seq<T>>) -> bool {
    &&& 1 <= old.len() <= new.len()
    &&& forall|j: int| 0 <= j < old.len() - 1 ==> new[j] == old[j]
    &&& old.last().is_prefix_of(new[old.len() - 1])
}

/// What `extends` promises: every segment but the last of `old` is still
/// there, unchanged and in place, and the last one is a prefix of the
/// segment that stands where it stood; so no item already written moves
/// or changes.
pub proof fn lemma_extends_keeps_items<T>(old: Seq<Seq<T>>, new: Seq<Seq<T>>)
    requires
        extends(old, new),
    ensures
        old.len() <= new.len(),
        forall|j: int| 0 <= j < old.len() - 1 ==> #[trigger] new[j] == old[j],
        old.last().is_prefix_of(new[old.len() - 1]),
{
}

proof fn lemma_extends_trans<T>(a: Seq<Seq<T>>, b: Seq<Seq<T>>, c: Seq<Seq<T>>)
    requires
        extends(a, b),
        extends(b, c),
    ensures
        extends(a, c),
{
    let k = a.len() - 1;
    if a.len() < b.len() {
        assert(c[k] == b[k]);
    } else {
        assert(b.last() == b[k]);
        assert(a.last().is_prefix_of(c[k]));
    }
}

/// The smallest power of two that is at least `n`, searching up from `p`.
pub open spec fn next_pow2_from(p: nat, n: nat) -> nat
    decreases (if p < n {
        n - p
    } else {
        0
    }),
    when p >= 1
{
    if p >= n {
        p
    } else {
        next_pow2_from(2 * p, n)
    }
}

/// The smallest power of two that is at least `n`.
pub open spec fn next_pow2(n: nat) -> nat {
    next_pow2_from(1, n)
}

/// Capacity of the segment that replaces a full one of capacity `cap`:
/// doubling up to `limit`, and never less than the `count` items asked for.
pub open spec fn grown_capacity(cap: nat, limit: nat, count: nat) -> nat {
    let doubled = next_pow2(cap + 1);
    let capped = if doubled < limit {
        doubled
    } else {
        limit
    };
    if count > capped {
        count
    } else {
        capped
    }
}

proof fn lemma_next_pow2_from_ge(p: nat, n: nat)
    requires
        p >= 1,
    ensures
        next_pow2_from(p, n) >= p,
        next_pow2_from(p, n) >= n,
        p < n ==> next_pow2_from(p, n) >= 2 * p,
    decreases (if p < n {
        n - p
    } else {
        0
    }),
{
    if p < n {
        lemma_next_pow2_from_ge(2 * p, n);
    }
}

pub proof fn lemma_concat_append<T>(a: Seq<Seq<T>>, b: Seq<Seq<T>>)
    ensures
        concat(a + b) == concat(a) + concat(b),
    decreases b.len(),
{
    if b.len() == 0 {
        assert(a + b =~= a);
        assert(concat(a) + concat(b) =~= concat(a));
    } else {
        assert((a + b).drop_last() =~= a + b.drop_last());
        lemma_concat_append(a, b.drop_last());
        assert(concat(a + b) =~= concat(a) + concat(b));
    }
}

/// The concatenation splits around segment `k`.
pub proof fn lemma_concat_split<T>(segs: Seq<Seq<T>>, k: int)
    requires
        0 <= k < segs.len(),
    ensures
        concat(segs.take(k + 1)) == concat(segs.take(k)) + segs[k],
        concat(segs) == concat(segs.take(k)) + segs[k] + concat(segs.skip(k + 1)),
{
    assert(segs.take(k + 1).drop_last() =~= segs.take(k));
    assert(segs =~= segs.take(k + 1) + segs.skip(k + 1));
    lemma_concat_append(segs.take(k + 1), segs.skip(k + 1));
}

proof fn lemma_fits_empty_start<T>(segs: Seq<Seq<T>>)
    requires
        segs.len() >= 1,
    ensures
        fits(segs, 0, 0),
    decreases segs.len(),
{
    if segs.len() > 1 && 0 >= segs[0].len() {
        lemma_fits_empty_start(segs.drop_first());
    }
}

/// A range that fits a list of segments still fits it once extended.
proof fn lemma_fits_extends<T>(old: Seq<Seq<T>>, new: Seq<Seq<T>>, start: int, end: int)
    requires
        extends(old, new),
        fits(old, start, end),
    ensures
        fits(new, start, end),
    decreases old.len(),
{
    if old.len() == 1 {
        assert(old.last() == old[0]);
        if new.len() > 1 && start >= new[0].len() {
            lemma_fits_empty_start(new.drop_first());
        }
    } else {
        assert(new[0] == old[0]);
        if start >= old[0].len() {
            let o = old.drop_first();
            let n = new.drop_first();
            assert forall|j: int| 0 <= j < o.len() - 1 implies n[j] == o[j] by {
                assert(n[j] == new[j + 1]);
            }
            assert(o.last() == old.last());
            assert(n[o.len() - 1] == new[old.len() - 1]);
            lemma_fits_extends(o, n, start - old[0].len(), end - old[0].len());
        }
    }
}

/// A range inside the last segment fits.
proof fn lemma_fits_last<T>(segs: Seq<Seq<T>>, start: int, end: int)
    requires
        segs.len() >= 1,
        concat(segs.drop_last()).len() <= start <= end <= concat(segs).len(),
    ensures
        fits(segs, start, end),
    decreases segs.len(),
{
    if segs.len() > 1 {
        let rest = segs.drop_first();
        lemma_concat_split(segs, 0);
        lemma_concat_split(segs.drop_last(), 0);
        assert(segs.take(0) =~= Seq::<Seq<T>>::empty());
        assert(segs.drop_last().take(0) =~= Seq::<Seq<T>>::empty());
        assert(segs.skip(1) =~= rest);
        assert(segs.drop_last().skip(1) =~= rest.drop_last());
        assert(segs.drop_last()[0] == segs[0]);
        lemma_fits_last(rest, start - segs[0].len(), end - segs[0].len());
    }
}

/// A region allocator that holds items at stable locations.
///
/// Items are written into an active segment. When it is full it is retired
/// to the stash, unchanged, and a larger segment takes its place; so an item
/// once written never moves until the region is cleared. The logical
/// contents are the stashed segments followed by the active one.
pub struct Region<T: Copy> {
    local: Vec<T>,
    stash: Vec<Vec<T>>,
    limit: usize,
    /// The capacity the active segment was made with.
    cap: usize,
}

/// Relies on Vec::capacity: the number of items the vector holds without
/// reallocating, never less than its length.
#[verifier::external_body]
fn capacity_of<T>(v: &Vec<T>) -> (r: usize)
    ensures
        r >= v@.len(),
{
    v.capacity()
}

/// `a * b`, capped at `usize::MAX`.
pub open spec fn sat_mul(a: nat, b: nat) -> nat {
    if a * b <= usize::MAX {
        a * b
    } else {
        usize::MAX as nat
    }
}

/// `count * size`, or `usize::MAX` where the product does not fit.
fn bytes_of(count: usize, size: usize) -> (r: usize)
    ensures
        r == sat_mul(count as nat, size as nat),
{
    match count.checked_mul(size) {
        Some(b) => b,
        None => usize::MAX,
    }
}

proof fn lemma_mul_mono(a: int, b: int, s: int)
    requires
        0 <= a <= b,
        0 <= s,
    ensures
        a * s <= b * s,
{
    assert(a * s <= b * s) by (nonlinear_arith)
        requires
            0 <= a <= b,
            0 <= s,
    ;
}

/// Capacity of the next active segment; see `grown_capacity`.
fn next_capacity(cap: usize, limit: usize, count: usize) -> (r: usize)
    ensures
        r == grown_capacity(cap as nat, limit as nat, count as nat),
{
    let capped: usize;
    if cap >= limit {
        proof {
            lemma_next_pow2_from_ge(1, cap as nat + 1);
        }
        capped = limit;
    } else {
        let target: usize = cap + 1;
        let mut p: usize = 1;
        while p < target && p <= limit - p
            invariant
                1 <= p <= limit,
                target <= limit,
                next_pow2_from(p as nat, target as nat) == next_pow2(target as nat),
            decreases limit - p,
        {
            p = 2 * p;
        }
        if p < target {
            proof {
                lemma_next_pow2_from_ge(p as nat, target as nat);
            }
            capped = limit;
        } else {
            capped = p;
        }
    }
    if count > capped {
        count
    } else {
        capped
    }
}

impl<T: Copy> View for Region<T> {
    type V = Seq<T>;

    closed spec fn view(&self) -> Seq<T> {
        concat(self.segments())
    }
}

impl<T: Copy> Region<T> {
    /// The stashed segments in the order they were retired, then the
    /// active one.
    pub closed spec fn segments(&self) -> Seq<Seq<T>> {
        self.stash@.map_values(|v: Vec<T>| v@).push(self.local@)
    }

    /// The largest size a segment grows to by doubling.
    pub closed spec fn limit(&self) -> usize {
        self.limit
    }

    /// The number of items the active segment was made to hold.
    pub closed spec fn capacity(&self) -> nat {
        self.cap as nat
    }

    /// The contents fit a `usize`, the active segment is within its
    /// capacity, and no stashed segment is empty.
    pub closed spec fn wf(&self) -> bool {
        &&& self@.len() <= usize::MAX
        &&& self.local@.len() <= self.cap
        &&& forall|k: int| 0 <= k < self.stash@.len() ==> #[trigger] self.stash@[k]@.len() > 0
    }

    /// `[start, end)` lies within a single segment, as every range that one
    /// `copy_slice` wrote does.
    pub closed spec fn in_one_segment(&self, start: int, end: int) -> bool {
        fits(self.segments(), start, end)
    }

    proof fn lemma_segments(&self)
        ensures
            self.segments().len() == self.stash@.len() + 1,
            forall|k: int|
                0 <= k < self.stash@.len() ==> #[trigger] self.segments()[k] == self.stash@[k]@,
            self.segments().last() == self.local@,
            self.segments().drop_last() =~= self.stash@.map_values(|v: Vec<T>| v@),
    {
    }

    /// An empty region whose segments grow by doubling up to `limit` items.
    pub fn with_limit(limit: usize) -> (r: Self)
        ensures
            r.wf(),
            r@ == Seq::<T>::empty(),
            r.limit() == limit,
            r.segments() == seq![Seq::<T>::empty()],
            r.capacity() == 0,
    {
        let r = Region { local: Vec::new(), stash: Vec::new(), limit, cap: 0 };
        proof {
            assert(r.segments().drop_last() =~= Seq::<Seq<T>>::empty());
            assert(concat(Seq::<Seq<T>>::empty()) == Seq::<T>::empty());
            assert(r@ =~= Seq::<T>::empty());
        }
        r
    }

    /// An empty region that takes `count` items before it first allocates.
    pub fn with_limit_and_capacity(limit: usize, count: usize) -> (r: Self)
        ensures
            r.wf(),
            r@ == Seq::<T>::empty(),
            r.limit() == limit,
            r.segments() == seq![Seq::<T>::empty()],
            r.capacity() >= count,
    {
        let mut region = Self::with_limit(limit);
        let ghost before = region;
        region.reserve(count);
        proof {
            assert(before.segments().drop_last() =~= Seq::<Seq<T>>::empty());
            assert(region.segments().drop_last() =~= Seq::<Seq<T>>::empty());
            assert(region.segments().last() =~= Seq::<T>::empty());
            assert(region.segments() =~= seq![Seq::<T>::empty()]);
        }
        region
    }

    /// The `i`-th item written, counting across all segments.
    pub fn idx(&self, i: usize) -> (r: &T)
        requires
            self.wf(),
            i < self@.len(),
        ensures
            *r == self@[i as int],
    {
        let ghost segs = self.segments();
        proof {
            self.lemma_segments();
        }
        let mut l: usize = 0;
        let mut k: usize = 0;
        while k < self.stash.len()
            invariant
                self.wf(),
                i < self@.len(),
                segs == self.segments(),
                segs.len() == self.stash@.len() + 1,
                forall|j: int| 0 <= j < self.stash@.len() ==> #[trigger] segs[j] == self.stash@[j]@,
                segs.last() == self.local@,
                0 <= k <= self.stash@.len(),
                l == concat(segs.take(k as int)).len(),
                l <= i,
            decreases self.stash@.len() - k,
        {
            let s = &self.stash[k];
            proof {
                lemma_concat_split(segs, k as int);
            }
            if s.len() + l > i {
                proof {
                    assert(self@[i as int] == s@[i - l]);
                }
                return &s[i - l];
            }
            l = l + s.len();
            k = k + 1;
        }
        proof {
            lemma_concat_split(segs, k as int);
            assert(segs[k as int] == self.local@);
        }
        &self.local[i - l]
    }

    /// Items `[start, end)`, which lie within one segment.
    pub fn slice(&self, start: usize, end: usize) -> (r: &[T])
        requires
            self.wf(),
            self.in_one_segment(start as int, end as int),
        ensures
            start <= end <= self@.len(),
            r@ == self@.subrange(start as int, end as int),
    {
        let ghost segs = self.segments();
        proof {
            self.lemma_segments();
            assert(segs.skip(0) =~= segs);
        }
        let mut l: usize = 0;
        let mut k: usize = 0;
        while k < self.stash.len()
            invariant
                self.wf(),
                segs == self.segments(),
                segs.len() == self.stash@.len() + 1,
                forall|j: int| 0 <= j < self.stash@.len() ==> #[trigger] segs[j] == self.stash@[j]@,
                segs.last() == self.local@,
                0 <= k <= self.stash@.len(),
                l == concat(segs.take(k as int)).len(),
                l <= start,
                fits(segs.skip(k as int), start - l, end - l),
            decreases self.stash@.len() - k,
        {
            let s = &self.stash[k];
            proof {
                lemma_concat_split(segs, k as int);
                assert(segs.skip(k as int)[0] == s@);
                assert(segs.skip(k as int).drop_first() =~= segs.skip(k + 1));
            }
            if s.len() + l > start {
                let a: usize = start - l;
                let b: usize = end - l;
                proof {
                    assert(self@.subrange(start as int, end as int) =~= s@.subrange(a as int, b as int));
                }
                return vstd::slice::slice_subrange(s.as_slice(), a, b);
            }
            l = l + s.len();
            k = k + 1;
        }
        proof {
            lemma_concat_split(segs, k as int);
            assert(segs[k as int] == self.local@);
            assert(segs.skip(k as int) =~= seq![self.local@]);
        }
        let a: usize = start - l;
        let b: usize = end - l;
        proof {
            assert(self@.subrange(start as int, end as int) =~= self.local@.subrange(a as int, b as int));
        }
        vstd::slice::slice_subrange(self.local.as_slice(), a, b)
    }

    /// Drops every segment; the region is empty again.
    pub fn clear(&mut self)
        ensures
            final(self).wf(),
            final(self)@ == Seq::<T>::empty(),
            final(self).limit() == old(self).limit(),
            final(self).segments() == seq![Seq::<T>::empty()],
            final(self).capacity() == old(self).capacity(),
    {
        self.local.clear();
        self.stash.clear();
        proof {
            assert(self.segments().drop_last() =~= Seq::<Seq<T>>::empty());
            assert(concat(Seq::<Seq<T>>::empty()) == Seq::<T>::empty());
            assert(self@ =~= Seq::<T>::empty());
            assert(self.segments() =~= seq![Seq::<T>::empty()]);
        }
    }

    /// Appends one item.
    pub fn copy(&mut self, t: &T)
        requires
            old(self).wf(),
            old(self)@.len() < usize::MAX,
        ensures
            final(self).wf(),
            final(self)@ == old(self)@.push(*t),
            final(self).limit() == old(self).limit(),
            extends(old(self).segments(), final(self).segments()),
            old(self).segments().last().len() < old(self).capacity() ==> final(self).segments()
                == old(self).segments().drop_last().push(old(self).segments().last().push(*t))
                && final(self).capacity() == old(self).capacity(),
            old(self).segments().last().len() >= old(self).capacity() ==> final(self).segments().last()
                == seq![*t] && final(self).capacity() == grown_capacity(
                old(self).capacity(),
                old(self).limit() as nat,
                1,
            ),
            old(self).segments().last().len() >= old(self).capacity() && old(self).segments().last().len()
                > 0 ==> final(self).segments().drop_last() == old(self).segments(),
            final(self).in_one_segment(old(self)@.len() as int, final(self)@.len() as int),
            forall|a: int, b: int|
                old(self).in_one_segment(a, b) ==> #[trigger] final(self).in_one_segment(a, b),
    {
        let ghost start = *self;
        self.reserve(1);
        let ghost mid = *self;
        self.local.push(*t);
        proof {
            mid.lemma_segments();
            self.lemma_segments();
            assert(self.segments().drop_last() =~= mid.segments().drop_last());
            let ms = mid.segments();
            let ns = self.segments();
            assert(extends(ms, ns)) by {
                assert forall|j: int| 0 <= j < ms.len() - 1 implies ns[j] == ms[j] by {
                    assert(ns[j] == ns.drop_last()[j]);
                    assert(ms[j] == ms.drop_last()[j]);
                }
                assert(ns[ms.len() - 1] == ns.last());
                assert(ms.last().is_prefix_of(ns.last()));
            }
            lemma_extends_trans(start.segments(), ms, ns);
            assert(ns =~= ms.drop_last().push(ms.last().push(*t)));
            assert(ns.last() =~= ms.last().push(*t));
            if ms.last().len() == 0 {
                assert(ns.last() =~= seq![*t]);
            }
            assert(concat(ns) == concat(ns.drop_last()) + ns.last());
            assert(concat(ms) == concat(ms.drop_last()) + ms.last());
            assert(concat(ns.drop_last()).len() + ns.last().len() == self@.len());
            lemma_fits_last(ns, start@.len() as int, self@.len() as int);
            assert forall|a: int, b: int| start.in_one_segment(a, b) implies #[trigger] self.in_one_segment(a, b) by {
                lemma_fits_extends(start.segments(), ns, a, b);
            }
        }
    }

    /// Appends `items` in order, all of them into one segment.
    pub fn copy_slice(&mut self, items: &[T])
        requires
            old(self).wf(),
            old(self)@.len() + items@.len() <= usize::MAX,
        ensures
            final(self).wf(),
            final(self)@ == old(self)@ + items@,
            final(self).limit() == old(self).limit(),
            extends(old(self).segments(), final(self).segments()),
            final(self).in_one_segment(old(self)@.len() as int, final(self)@.len() as int),
            forall|a: int, b: int|
                old(self).in_one_segment(a, b) ==> #[trigger] final(self).in_one_segment(a, b),
    {
        let ghost start = *self;
        self.reserve(items.len());
        let ghost mid = *self;
        let mut i: usize = 0;
        while i < items.len()
            invariant
                0 <= i <= items@.len(),
                self.stash == mid.stash,
                self.limit == mid.limit,
                self.cap == mid.cap,
                mid.local@.len() + items@.len() <= mid.cap,
                self.local@ == mid.local@ + items@.subrange(0, i as int),
            decreases items@.len() - i,
        {
            self.local.push(items[i]);
            i = i + 1;
            proof {
                assert(self.local@ =~= mid.local@ + items@.subrange(0, i as int));
            }
        }
        proof {
            assert(items@.subrange(0, i as int) =~= items@);
            mid.lemma_segments();
            self.lemma_segments();
            assert(self.segments().drop_last() =~= mid.segments().drop_last());
            let ns = self.segments();
            let ms = mid.segments();
            assert(ns.last() == mid.local@ + items@);
            assert(concat(ns) == concat(ns.drop_last()) + ns.last());
            assert(concat(ms) == concat(ms.drop_last()) + ms.last());
            assert(self@ =~= start@ + items@);
            assert(concat(ns.drop_last()).len() + ns.last().len() == self@.len());
            lemma_fits_last(ns, start@.len() as int, self@.len() as int);
            assert(extends(ms, ns)) by {
                assert forall|j: int| 0 <= j < ms.len() - 1 implies ns[j] == ms[j] by {
                    assert(ns[j] == ns.drop_last()[j]);
                    assert(ms[j] == ms.drop_last()[j]);
                }
                assert(ms.last().is_prefix_of(ns[ms.len() - 1])) by {
                    assert(ns[ms.len() - 1] == ns.last());
                    assert(ns.last() =~= ms.last() + items@);
                }
            }
            lemma_extends_trans(start.segments(), ms, ns);
            assert forall|a: int, b: int| start.in_one_segment(a, b) implies #[trigger] self.in_one_segment(a, b) by {
                lemma_fits_extends(start.segments(), ms, a, b);
                lemma_fits_extends(ms, ns, a, b);
            }
        }
    }

    /// Makes room for `count` more items in the active segment. When it
    /// lacks the room, a fresh segment of `grown_capacity` items takes its
    /// place, and the old one, if it holds anything, is stashed unchanged.
    pub fn reserve(&mut self, count: usize)
        requires
            old(self).wf(),
        ensures
            final(self).wf(),
            final(self)@ == old(self)@,
            final(self).limit() == old(self).limit(),
            extends(old(self).segments(), final(self).segments()),
            final(self).segments().last().len() + count <= final(self).capacity(),
            old(self).segments().last().len() + count <= old(self).capacity() ==> final(self).segments()
                == old(self).segments() && final(self).capacity() == old(self).capacity(),
            old(self).segments().last().len() + count > old(self).capacity() ==> final(self).segments().last().len()
                == 0 && final(self).capacity() == grown_capacity(
                old(self).capacity(),
                old(self).limit() as nat,
                count as nat,
            ),
            old(self).segments().last().len() + count > old(self).capacity() && old(self).segments().last().len()
                > 0 ==> final(self).segments().drop_last() == old(self).segments(),
            old(self).segments().last().len() == 0 ==> final(self).segments().drop_last() == old(
                self,
            ).segments().drop_last(),
    {
        let ghost start = *self;
        proof {
            start.lemma_segments();
        }
        if count > self.cap - self.local.len() {
            let next_len = next_capacity(self.cap, self.limit, count);
            let new_local: Vec<T> = Vec::with_capacity(next_len);
            self.cap = next_len;
            if self.local.is_empty() {
                self.local = new_local;
                proof {
                    self.lemma_segments();
                    assert(self.segments().drop_last() =~= start.segments().drop_last());
                    assert(self@ =~= start@);
                    assert(start.segments().last().is_prefix_of(self.segments().last()));
                }
            } else {
                let mut full = new_local;
                std::mem::swap(&mut self.local, &mut full);
                self.stash.push(full);
                proof {
                    self.lemma_segments();
                    let ss = start.segments();
                    let ns = self.segments();
                    assert(ns.drop_last() =~= ss);
                    assert(concat(ns) =~= concat(ss));
                    assert(self.stash@[self.stash@.len() - 1]@ == start.local@);
                    assert(ss.last().is_prefix_of(ns[ss.len() - 1]));
                }
            }
        } else {
            proof {
                assert(start.segments().last().is_prefix_of(self.segments().last()));
            }
        }
    }

    /// Memory use as (used bytes, allocated bytes) pairs: first for the
    /// active segment, then for the stash's own list, then for each stashed
    /// segment in the order it was retired. Sizes past `usize::MAX` are
    /// given as `usize::MAX`.
    pub fn heap_report(&self) -> (r: Vec<(usize, usize)>)
        requires
            self.wf(),
        ensures
            r@.len() == self.segments().len() + 1,
            r@[0].0 == sat_mul(self.segments().last().len(), size_of::<T>()),
            r@[1].0 == sat_mul((self.segments().len() - 1) as nat, size_of::<Vec<T>>()),
            forall|k: int|
                0 <= k < self.segments().len() - 1 ==> #[trigger] r@[k + 2].0 == sat_mul(
                    self.segments()[k].len(),
                    size_of::<T>(),
                ),
            forall|k: int| 0 <= k < r@.len() ==> r@[k].0 <= #[trigger] r@[k].1,
    {
        proof {
            self.lemma_segments();
        }
        let size_of_t = std::mem::size_of::<T>();
        let size_of_seg = std::mem::size_of::<Vec<T>>();
        let mut r: Vec<(usize, usize)> = Vec::new();
        let local_cap = capacity_of(&self.local);
        proof {
            lemma_mul_mono(self.local@.len() as int, local_cap as int, size_of_t as int);
        }
        r.push((bytes_of(self.local.len(), size_of_t), bytes_of(local_cap, size_of_t)));
        let stash_cap = capacity_of(&self.stash);
        proof {
            lemma_mul_mono(self.stash@.len() as int, stash_cap as int, size_of_seg as int);
        }
        r.push((bytes_of(self.stash.len(), size_of_seg), bytes_of(stash_cap, size_of_seg)));
        let mut k: usize = 0;
        while k < self.stash.len()
            invariant
                0 <= k <= self.stash@.len(),
                size_of_t as nat == size_of::<T>(),
                size_of_seg as nat == size_of::<Vec<T>>(),
                self.segments().len() == self.stash@.len() + 1,
                forall|j: int|
                    0 <= j < self.stash@.len() ==> #[trigger] self.segments()[j] == self.stash@[j]@,
                self.segments().last() == self.local@,
                r@.len() == k + 2,
                r@[0].0 == sat_mul(self.segments().last().len(), size_of::<T>()),
                r@[1].0 == sat_mul((self.segments().len() - 1) as nat, size_of::<Vec<T>>()),
                forall|j: int|
                    0 <= j < k ==> #[trigger] r@[j + 2].0 == sat_mul(
                        self.segments()[j].len(),
                        size_of::<T>(),
                    ),
                forall|j: int| 0 <= j < r@.len() ==> r@[j].0 <= #[trigger] r@[j].1,
            decreases self.stash@.len() - k,
        {
            let s = &self.stash[k];
            let s_cap = capacity_of(s);
            proof {
                lemma_mul_mono(s@.len() as int, s_cap as int, size_of_t as int);
            }
            r.push((bytes_of(s.len(), size_of_t), bytes_of(s_cap, size_of_t)));
            k = k + 1;
            proof {
                assert(r@[k + 1].0 == sat_mul(self.segments()[k - 1].len(), size_of::<T>()));
            }
        }
        r
    }

    /// Hands `callback` the pairs of `heap_report`, in that order.
    pub fn heap_size<F: FnMut(usize, usize)>(&self, mut callback: F)
        requires
            self.wf(),
            forall|used: usize, allocated: usize|
                used <= allocated ==> call_requires(callback, (used, allocated)),
    {
        let report = self.heap_report();
        let mut k: usize = 0;
        while k < report.len()
            invariant
                forall|j: int| 0 <= j < report@.len() ==> report@[j].0 <= #[trigger] report@[j].1,
                forall|used: usize, allocated: usize|
                    used <= allocated ==> call_requires(callback, (used, allocated)),
            decreases report@.len() - k,
        {
            let (used, allocated) = report[k];
            callback(used, allocated);
            k = k + 1;
        }
    }

    /// The number of items held, across all segments.
    pub fn len(&self) -> (r: usize)
        requires
            self.wf(),
        ensures
            r == self@.len(),
    {
        let ghost segs = self.segments();
        proof {
            self.lemma_segments();
        }
        let mut total: usize = 0;
        let mut k: usize = 0;
        while k < self.stash.len()
            invariant
                self.wf(),
                segs == self.segments(),
                segs.len() == self.stash@.len() + 1,
                forall|j: int| 0 <= j < self.stash@.len() ==> #[trigger] segs[j] == self.stash@[j]@,
                segs.last() == self.local@,
                0 <= k <= self.stash@.len(),
                total == concat(segs.take(k as int)).len(),
            decreases self.stash@.len() - k,
        {
            proof {
                lemma_concat_split(segs, k as int);
            }
            total = total + self.stash[k].len();
            k = k + 1;
        }
        proof {
            lemma_concat_split(segs, k as int);
        }
        total + self.local.len()
    }
}

/// Views that grow by one push each, from empty, hold exactly the values
/// pushed: `views[k]` is the first `k` of `inputs`, and every view is a
/// prefix of each later one.
pub proof fn lemma_push_chain<A>(views: Seq<Seq<A>>, inputs: Seq<A>)
    requires
        views.len() == inputs.len() + 1,
        views[0] == Seq::<A>::empty(),
        forall|k: int| 0 <= k < inputs.len() ==> #[trigger] views[k + 1] == views[k].push(inputs[k]),
    ensures
        forall|k: int| 0 <= k < views.len() ==> #[trigger] views[k] == inputs.take(k),
        views.last() == inputs,
        forall|j: int, k: int|
            0 <= j <= k < views.len() ==> #[trigger] views[j].is_prefix_of(#[trigger] views[k]),
    decreases inputs.len(),
{
    if inputs.len() == 0 {
        assert(inputs.take(0) =~= Seq::<A>::empty());
    } else {
        let n = inputs.len() - 1;
        let vs = views.drop_last();
        let ins = inputs.drop_last();
        assert forall|k: int| 0 <= k < ins.len() implies #[trigger] vs[k + 1] == vs[k].push(ins[k]) by {
            assert(views[k + 1] == views[k].push(inputs[k]));
        }
        lemma_push_chain(vs, ins);
        assert forall|k: int| 0 <= k < views.len() implies #[trigger] views[k] == inputs.take(k) by {
            if k < views.len() - 1 {
                assert(vs[k] == ins.take(k));
                assert(ins.take(k) =~= inputs.take(k));
            } else {
                assert(views[n + 1] == views[n].push(inputs[n]));
                assert(vs[n] == ins.take(n));
                assert(inputs.take(n + 1) =~= ins.take(n).push(inputs[n]));
            }
        }
        assert(inputs.take(inputs.len() as int) =~= inputs);
        assert forall|j: int, k: int| 0 <= j <= k < views.len() implies #[trigger] views[j].is_prefix_of(
            #[trigger] views[k],
        ) by {
            assert(views[j] == inputs.take(j));
            assert(views[k] == inputs.take(k));
            assert(inputs.take(k).take(j) =~= inputs.take(j));
        }
    }
}

/// A region filled by `copy` from empty (as `with_limit` or `clear` leave
/// it) holds exactly the items copied, in order: after `k` copies `len` is
/// `k` and `idx(i)` returns the `i`-th item copied, and what was held
/// before a copy is held unchanged after every later copy. `states[k]` is
/// the region after `k` copies, `items[k]` the `k`-th item copied.
pub proof fn lemma_region_round_trip<T: Copy>(states: Seq<Region<T>>, items: Seq<T>)
    requires
        states.len() == items.len() + 1,
        states[0]@ == Seq::<T>::empty(),
        forall|k: int| 0 <= k < items.len() ==> #[trigger] states[k + 1]@ == states[k]@.push(items[k]),
    ensures
        forall|k: int| 0 <= k < states.len() ==> #[trigger] states[k]@ == items.take(k),
        states.last()@ == items,
        forall|j: int, k: int|
            0 <= j <= k < states.len() ==> #[trigger] states[j]@.is_prefix_of(#[trigger] states[k]@),
{
    let views = states.map_values(|r: Region<T>| r@);
    assert forall|k: int| 0 <= k < items.len() implies #[trigger] views[k + 1] == views[k].push(items[k]) by {
        assert(states[k + 1]@ == states[k]@.push(items[k]));
    }
    lemma_push_chain(views, items);
    assert(views.last() == states.last()@);
    assert forall|k: int| 0 <= k < states.len() implies #[trigger] states[k]@ == items.take(k) by {
        assert(views[k] == items.take(k));
    }
    assert forall|j: int, k: int| 0 <= j <= k < states.len() implies #[trigger] states[j]@.is_prefix_of(
        #[trigger] states[k]@,
    ) by {
        assert(views[j].is_prefix_of(views[k]));
    }
}

} // verus!
