use vstd::prelude::*;

use crate::control::Flow;
use crate::model::after_front;
use crate::model::back_of;
use crate::model::before_back;
use crate::model::folds_over;
use crate::model::front_of;
use crate::model::try_folds_over;

verus! {

/// A pull-based sequence source. The elements it will still produce, front
/// first, are modelled by the spec sequence `elements()`; every operation
/// is specified against that sequence. An element's validity ends when the
/// source is advanced again, so the protocol hands elements out one at a
/// time and by value.
pub trait Lender<T>: Sized {
    /// The sequence of elements the source will still produce, front first.
    spec fn elements(&self) -> Seq<T>;

    /// The source's own well-formedness condition, preserved by every
    /// operation.
    spec fn inv(&self) -> bool;

    /// Advances the source once: produces the front element and drops it
    /// from the remaining sequence. An exhausted source stays exhausted and
    /// keeps reporting that no element is left.
    fn next(&mut self) -> (r: Option<T>)
        requires
            old(self).inv(),
        ensures
            final(self).inv(),
            r == front_of(old(self).elements()),
            final(self).elements() == after_front(old(self).elements()),
    ;

    /// Consumes the source, counting the elements it still holds.
    fn count(self) -> (r: usize)
        requires
            self.inv(),
            self.elements().len() <= usize::MAX,
        ensures
            r == self.elements().len(),
    ;

    /// Advances past `n` elements and produces the one after them; when
    /// fewer than `n + 1` elements remain, consumes them all and produces
    /// nothing.
    fn nth(&mut self, n: usize) -> (r: Option<T>)
        requires
            old(self).inv(),
        ensures
            final(self).inv(),
            n < old(self).elements().len() ==> r == Some(old(self).elements()[n as int])
                && final(self).elements() == old(self).elements().skip(n + 1),
            n >= old(self).elements().len() ==> r is None && final(self).elements().len() == 0,
    ;

    /// Consumes the source and produces its final element.
    fn last(self) -> (r: Option<T>)
        requires
            self.inv(),
        ensures
            r == back_of(self.elements()),
    ;

    /// Bounds on the number of remaining elements: the lower bound never
    /// exceeds the true count, and an upper bound, when one is given, is
    /// never below it.
    fn size_hint(&self) -> (r: (usize, Option<usize>))
        requires
            self.inv(),
        ensures
            r.0 <= self.elements().len(),
            r.1 matches Some(hi) ==> self.elements().len() <= hi,
    ;

    /// Folds `f` over every remaining element, front first, consuming the
    /// source.
    fn fold<B, F: Fn(B, T) -> B>(self, init: B, f: F) -> (r: B)
        requires
            self.inv(),
            forall|b: B, x: T| #[trigger] call_requires(f, (b, x)),
        ensures
            folds_over(f, self.elements(), init, r),
    ;

    /// Folds `f` over the remaining elements, front first, stopping as soon
    /// as `f` breaks; exactly the elements the outcome accounts for are
    /// consumed, the element broken on included.
    fn try_fold<B, R, F: Fn(B, T) -> Flow<B, R>>(&mut self, init: B, f: F) -> (r: Flow<
        B,
        R,
    >)
        requires
            old(self).inv(),
            forall|b: B, x: T| #[trigger] call_requires(f, (b, x)),
        ensures
            final(self).inv(),
            exists|k: int|
                {
                    &&& 0 <= k <= old(self).elements().len()
                    &&& #[trigger] try_folds_over(f, old(self).elements(), init, k, r)
                    &&& final(self).elements() == old(self).elements().skip(k)
                },
    ;
}

/// A source that can also be advanced from the back.
pub trait DoubleEndedLender<T>: Lender<T> {
    /// Advances the source once from the back: produces the last element
    /// and drops it from the remaining sequence.
    fn next_back(&mut self) -> (r: Option<T>)
        requires
            old(self).inv(),
        ensures
            final(self).inv(),
            r == back_of(old(self).elements()),
            final(self).elements() == before_back(old(self).elements()),
    ;

    /// Folds `f` over the remaining elements, back first, stopping as soon
    /// as `f` breaks; exactly the elements the outcome accounts for are
    /// consumed from the back. The function must be copyable so that it can
    /// run over the source and then over what stands in front of it.
    fn try_rfold<B, R, F: Fn(B, T) -> Flow<B, R> + Copy>(&mut self, init: B, f: F) -> (r:
        Flow<B, R>)
        requires
            old(self).inv(),
            forall|b: B, x: T| #[trigger] call_requires(f, (b, x)),
        ensures
            final(self).inv(),
            exists|k: int|
                {
                    &&& 0 <= k <= old(self).elements().len()
                    &&& #[trigger] try_folds_over(f, old(self).elements().reverse(), init, k, r)
                    &&& final(self).elements() == old(self).elements().take(
                        old(self).elements().len() - k,
                    )
                },
    ;

    /// Folds `f` over every remaining element, back first, consuming the
    /// source. The function must be copyable so that it can run over the
    /// source and then over what stands in front of it.
    fn rfold<B, F: Fn(B, T) -> B + Copy>(self, init: B, f: F) -> (r: B)
        requires
            self.inv(),
            forall|b: B, x: T| #[trigger] call_requires(f, (b, x)),
        ensures
            folds_over(f, self.elements().reverse(), init, r),
    ;
}

/// A source whose remaining count is known exactly.
pub trait ExactSizeLender<T>: Lender<T> {
    /// The exact number of remaining elements.
    fn len(&self) -> (r: usize)
        requires
            self.inv(),
            self.elements().len() <= usize::MAX,
        ensures
            r == self.elements().len(),
    ;
}

/// A source that guarantees exhaustion is permanent. In this model every
/// `Lender` contract already pins that behaviour — an empty `elements()`
/// stays empty — so the trait is a pure capability marker, kept so that an
/// adapter re-exposes the guarantee exactly when its source advertises it.
pub trait FusedLender<T>: Lender<T> {

}

} // verus!
