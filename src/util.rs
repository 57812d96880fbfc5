use rand::Rng;
use rand_xorshift::XorShiftRng;
use vstd::prelude::*;

verus! {

/// The xorshift generator of rand_xorshift, carried as an opaque value.
#[verifier::external_type_specification]
#[verifier::external_body]
pub struct ExXorShiftRng(XorShiftRng);

/// Relies on `rand::Rng::gen_range(low, high)` of rand 0.7: for `low < high`
/// it returns a value in `[low, high)` (it panics when `low >= high`).
#[verifier::external_body]
fn draw_below(rng: &mut XorShiftRng, bound: usize) -> (r: usize)
    requires
        0 < bound,
    ensures
        r < bound,
{
    rng.gen_range(0, bound)
}

/// `s` with its element at `i` replaced by the last one, then shortened by
/// one: what `Vec::swap_remove(i)` leaves behind.
pub open spec fn swap_removed<T>(s: Seq<T>, i: int) -> Seq<T> {
    s.update(i, s.last()).drop_last()
}

/// Swap-removing the element at `i` takes exactly that element out of the
/// multiset of the sequence.
pub proof fn lemma_swap_removed_multiset<T>(s: Seq<T>, i: int)
    requires
        0 <= i < s.len(),
    ensures
        swap_removed(s, i).to_multiset() == s.to_multiset().remove(s[i]),
{
    broadcast use vstd::seq_lib::group_to_multiset_ensures, vstd::multiset::group_multiset_axioms;

    let u = s.update(i, s.last());
    vstd::seq_lib::to_multiset_update(s, i, s.last());
    assert(u =~= u.drop_last().push(u.last()));
    assert(u.drop_last().to_multiset().insert(s.last()) == u.to_multiset());
    let m = s.to_multiset();
    let d = u.drop_last().to_multiset();
    assert(m.count(s[i]) > 0);
    assert forall|y: T| d.count(y) == m.remove(s[i]).count(y) by {
        assert(d.insert(s.last()).count(y) == m.insert(s.last()).remove(s[i]).count(y));
    }
    assert(swap_removed(s, i).to_multiset() =~= m.remove(s[i]));
}

/// An unordered buffer that gives up a uniformly drawn element in O(1).
///
/// The generator is owned exclusively, so its state alone decides which
/// element goes next.
pub struct RandomRemoveVec<T> {
    inner: Vec<T>,
    rng: XorShiftRng,
}

impl<T> View for RandomRemoveVec<T> {
    type V = Seq<T>;

    closed spec fn view(&self) -> Seq<T> {
        self.inner@
    }
}

impl<T> RandomRemoveVec<T> {
    /// An empty buffer with room for `capacity` elements plus one incoming.
    pub fn with_capacity(capacity: usize, rng: XorShiftRng) -> (r: Self)
        requires
            capacity < usize::MAX,
        ensures
            r@ == Seq::<T>::empty(),
    {
        RandomRemoveVec { inner: Vec::with_capacity(capacity + 1), rng }
    }

    pub fn is_empty(&self) -> (r: bool)
        ensures
            r == (self@.len() == 0),
    {
        self.inner.len() == 0
    }

    pub fn push(&mut self, value: T)
        ensures
            final(self)@ == old(self)@.push(value),
    {
        self.inner.push(value);
    }

    pub fn len(&self) -> (r: usize)
        ensures
            r == self@.len(),
    {
        self.inner.len()
    }

    /// Removes an element at an index drawn from the generator, moving the
    /// last element into its place; `None` when the buffer is empty.
    pub fn remove_random(&mut self) -> (r: Option<T>)
        ensures
            old(self)@.len() == 0 ==> r is None && final(self)@ == old(self)@,
            old(self)@.len() > 0 ==> exists|i: int|
                0 <= i < old(self)@.len() && r == Some(old(self)@[i]) && final(self)@
                    == swap_removed(old(self)@, i),
    {
        if self.inner.len() == 0 {
            None
        } else {
            let ghost before = self@;
            let i = draw_below(&mut self.rng, self.inner.len());
            let x = self.inner.swap_remove(i);
            assert(x == before[i as int] && self@ == swap_removed(before, i as int));
            Some(x)
        }
    }

    /// Adds `replacement`, then removes an element at an index drawn from
    /// the generator over the grown buffer; `replacement` itself may be the
    /// one returned.
    pub fn push_and_remove_random(&mut self, replacement: T) -> (r: T)
        ensures
            exists|i: int|
                0 <= i < old(self)@.len() + 1 && r == old(self)@.push(replacement)[i]
                    && final(self)@ == swap_removed(old(self)@.push(replacement), i),
    {
        let ghost grown = self@.push(replacement);
        self.inner.push(replacement);
        let i = draw_below(&mut self.rng, self.inner.len());
        let x = self.inner.swap_remove(i);
        assert(x == grown[i as int] && self@ == swap_removed(grown, i as int));
        x
    }
}

} // verus!
