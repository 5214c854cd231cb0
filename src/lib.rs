pub mod borrow;
pub mod region;
pub mod string;
pub mod vector;

use vstd::prelude::*;

use crate::borrow::Borrow;
use crate::region::{lemma_push_chain, Region};

verus! {

/// The value that a stored item, a borrowed input or a read view stands for.
pub enum Val {
    Int(u64),
    Text(Seq<char>),
    List(Seq<Val>),
}

/// The storage units a value takes: one slot for an integer, its UTF-8
/// bytes for a text, and the units of its elements for a list.
pub open spec fn weight(v: Val) -> nat
    decreases v, 0nat,
{
    match v {
        Val::Int(_) => 1,
        Val::Text(s) => vstd::utf8::encode_utf8(s).len(),
        Val::List(xs) => weights_upto(xs, xs.len()),
    }
}

/// The units of the first `n` values of `xs`.
pub open spec fn weights_upto(xs: Seq<Val>, n: nat) -> nat
    decreases xs, n,
{
    if n == 0 || n > xs.len() {
        0
    } else {
        weights_upto(xs, (n - 1) as nat) + weight(xs[n - 1])
    }
}

/// The units of all values of `xs`.
pub open spec fn weights(xs: Seq<Val>) -> nat {
    weights_upto(xs, xs.len())
}

proof fn lemma_weights_upto_push(xs: Seq<Val>, v: Val, n: nat)
    requires
        n <= xs.len(),
    ensures
        weights_upto(xs.push(v), n) == weights_upto(xs, n),
    decreases n,
{
    if n > 0 {
        lemma_weights_upto_push(xs, v, (n - 1) as nat);
        assert(xs.push(v)[n - 1] == xs[n - 1]);
    }
}

/// Appending a value adds its units.
pub proof fn lemma_weights_push(xs: Seq<Val>, v: Val)
    ensures
        weights(xs.push(v)) == weights(xs) + weight(v),
{
    lemma_weights_upto_push(xs, v, xs.len());
    assert(xs.push(v)[xs.len() as int] == v);
}

/// The units of a prefix never exceed those of the whole.
pub proof fn lemma_weights_upto_le(xs: Seq<Val>, n: nat)
    requires
        n <= xs.len(),
    ensures
        weights_upto(xs, n) <= weights(xs),
    decreases xs.len() - n,
{
    if n < xs.len() {
        lemma_weights_upto_le(xs, n + 1);
    }
}

/// A sequence of integers takes one unit per integer.
pub proof fn lemma_weights_ints(xs: Seq<u64>)
    ensures
        weights(xs.map_values(|x: u64| Val::Int(x))) == xs.len(),
    decreases xs.len(),
{
    if xs.len() > 0 {
        lemma_weights_ints(xs.drop_last());
        assert(xs.map_values(|x: u64| Val::Int(x)) =~= xs.drop_last().map_values(
            |x: u64| Val::Int(x),
        ).push(Val::Int(xs.last())));
        lemma_weights_push(xs.drop_last().map_values(|x: u64| Val::Int(x)), Val::Int(xs.last()));
    } else {
        assert(xs.map_values(|x: u64| Val::Int(x)) =~= Seq::<Val>::empty());
    }
}

/// A type that can be stored column-wise, in the buffer type `Buf`.
pub trait Columnar: Borrow + Sized + 'static {
    type Buf: ColumnarBuf<Self>;
}

/// A buffer that stores borrowed views of `C` densely and hands back read
/// views of them by index.
pub trait ColumnarBuf<C: Borrow>: Sized {
    type ReadItem<'a> where Self: 'a;

    /// The values stored, in the order they were copied in.
    spec fn vals(&self) -> Seq<Val>;

    /// The buffer's internal bookkeeping agrees with `vals`.
    spec fn wf(&self) -> bool;

    /// The value that a read view stands for.
    spec fn read_val<'a>(r: &Self::ReadItem<'a>) -> Val;

    /// How a buffer made by `with_capacity(s)` is laid out: the segment
    /// limits it uses and the room it has made for `s` items.
    spec fn sized_for(&self, s: usize) -> bool;

    /// Appends one item. Earlier items keep their values.
    fn copy(&mut self, b: &C::Borrowed)
        requires
            old(self).wf(),
            weights(old(self).vals()) + weight(C::borrowed_val(b)) <= usize::MAX,
        ensures
            final(self).wf(),
            final(self).vals() == old(self).vals().push(C::borrowed_val(b)),
    ;

    /// A read view of the `i`-th item.
    fn idx(&self, i: usize) -> (r: Self::ReadItem<'_>)
        requires
            self.wf(),
            i < self.vals().len(),
        ensures
            Self::read_val(&r) == self.vals()[i as int],
    ;

    /// The number of items stored.
    fn len(&self) -> (r: usize)
        requires
            self.wf(),
        ensures
            r == self.vals().len(),
    ;

    /// An empty buffer sized for about `s` items; it grows past that.
    fn with_capacity(s: usize) -> (r: Self)
        ensures
            r.wf(),
            r.vals() == Seq::<Val>::empty(),
            r.sized_for(s),
    ;

    /// Removes every item; the buffer is as if newly made.
    fn clear(&mut self)
        ensures
            final(self).wf(),
            final(self).vals() == Seq::<Val>::empty(),
    ;
}

/// A buffer filled by copies from empty (as `with_capacity` or `clear`
/// leave it) holds exactly the values copied, in order: after `k` copies
/// `len` is `k` and index `i` reads back the `i`-th value copied; and the
/// values held before a copy are held unchanged after every later copy.
/// `states[k]` is the buffer after `k` copies, `inputs[k]` the value of the
/// `k`-th borrowed view copied.
pub proof fn lemma_copies_round_trip<C: Borrow, B: ColumnarBuf<C>>(states: Seq<B>, inputs: Seq<Val>)
    requires
        states.len() == inputs.len() + 1,
        states[0].vals() == Seq::<Val>::empty(),
        forall|k: int|
            0 <= k < inputs.len() ==> #[trigger] states[k + 1].vals() == states[k].vals().push(
                inputs[k],
            ),
    ensures
        forall|k: int| 0 <= k < states.len() ==> #[trigger] states[k].vals() == inputs.take(k),
        states.last().vals() == inputs,
        forall|j: int, k: int|
            0 <= j <= k < states.len() ==> #[trigger] states[j].vals().is_prefix_of(
                #[trigger] states[k].vals(),
            ),
{
    let views = states.map_values(|b: B| b.vals());
    assert forall|k: int| 0 <= k < inputs.len() implies #[trigger] views[k + 1] == views[k].push(
        inputs[k],
    ) by {
        assert(states[k + 1].vals() == states[k].vals().push(inputs[k]));
    }
    lemma_push_chain(views, inputs);
    assert(views.last() == states.last().vals());
    assert forall|k: int| 0 <= k < states.len() implies #[trigger] states[k].vals() == inputs.take(k) by {
        assert(views[k] == inputs.take(k));
    }
    assert forall|j: int, k: int| 0 <= j <= k < states.len() implies #[trigger] states[j].vals().is_prefix_of(
        #[trigger] states[k].vals(),
    ) by {
        assert(views[j].is_prefix_of(views[k]));
    }
}

/// Largest segment of a buffer of integers.
pub const PRIMITIVE_SEGMENT_LIMIT: usize = 1_000_000;

impl Columnar for u64 {
    type Buf = Region<u64>;
}

impl ColumnarBuf<u64> for Region<u64> {
    type ReadItem<'a> = u64;

    open spec fn vals(&self) -> Seq<Val> {
        self@.map_values(|x: u64| Val::Int(x))
    }

    open spec fn wf(&self) -> bool {
        Region::wf(self)
    }

    open spec fn read_val<'a>(r: &u64) -> Val {
        Val::Int(*r)
    }

    open spec fn sized_for(&self, s: usize) -> bool {
        self.limit() == PRIMITIVE_SEGMENT_LIMIT && self.capacity() >= s
    }

    fn copy(&mut self, c: &u64) {
        proof {
            lemma_weights_ints(old(self)@);
        }
        Region::copy(self, c);
        proof {
            assert(self@.map_values(|x: u64| Val::Int(x)) =~= old(self)@.map_values(
                |x: u64| Val::Int(x),
            ).push(Val::Int(*c)));
        }
    }

    fn idx(&self, i: usize) -> (r: u64) {
        *Region::idx(self, i)
    }

    fn len(&self) -> (r: usize) {
        Region::len(self)
    }

    fn with_capacity(s: usize) -> (r: Self) {
        let r = Region::with_limit_and_capacity(PRIMITIVE_SEGMENT_LIMIT, s);
        proof {
            assert(r@.map_values(|x: u64| Val::Int(x)) =~= Seq::<Val>::empty());
        }
        r
    }

    fn clear(&mut self) {
        Region::clear(self);
        proof {
            assert(self@.map_values(|x: u64| Val::Int(x)) =~= Seq::<Val>::empty());
        }
    }
}

} // verus!
