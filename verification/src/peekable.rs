use vstd::pervasive::cloned;
use vstd::prelude::*;
use vstd::std_specs::cmp::PartialEqSpec;

use crate::control::Flow;
use crate::model::after_front;
use crate::model::folds_over;
use crate::model::lemma_folds_over_snoc;
use crate::model::lemma_try_folds_over_break_extends;
use crate::model::lemma_try_folds_over_continue_len;
use crate::model::lemma_try_folds_over_snoc;
use crate::model::try_folds_over;
use crate::source::DoubleEndedLender;
use crate::source::ExactSizeLender;
use crate::source::FusedLender;
use crate::source::Lender;

verus! {

/// A source adapter with a single-slot lookahead buffer. It lets a caller
/// inspect or conditionally consume the next element of the wrapped source
/// without losing it, and re-exposes the whole source protocol, accounting
/// for the buffered element before delegating to the source.
///
/// The buffer holds one of three states: empty (the source has not been
/// probed ahead of the caller), a cached element (a probe produced it; it
/// is held until consumed), or a cached end (a probe found the source
/// exhausted; this is remembered so the source need not be probed again).
/// At most one element is ever held out of the source at a time: the buffer
/// is drained before the source is advanced again.
#[derive(Debug)]
pub struct Peekable<T, L: Lender<T>> {
    lender: L,
    peeked: Option<Option<T>>,
}

impl<T, L: Lender<T>> Peekable<T, L> {
    /// The wrapped source.
    pub closed spec fn source(&self) -> L {
        self.lender
    }

    /// The lookahead buffer is empty: no probe of the source is pending.
    pub closed spec fn buffer_empty(&self) -> bool {
        self.peeked is None
    }

    /// The buffer remembers that the source was probed and found exhausted.
    pub closed spec fn end_cached(&self) -> bool {
        self.peeked matches Some(None)
    }

    /// The buffer holds an element probed out of the source.
    pub closed spec fn element_cached(&self) -> bool {
        self.peeked matches Some(Some(_))
    }

    /// How the buffer state pins the remaining sequence. Exactly one of the
    /// three states holds at any instant. A cached end means nothing
    /// remains; a cached element means at least that element remains, and
    /// everything behind it is exactly what the source still holds; an
    /// empty buffer presents exactly the source's elements; and an occupied
    /// buffer over an empty remainder can only be a cached end.
    pub proof fn lemma_buffer_state(&self)
        requires
            self.inv(),
        ensures
            self.buffer_empty() || self.end_cached() || self.element_cached(),
            self.buffer_empty() ==> !self.end_cached() && !self.element_cached(),
            self.end_cached() ==> !self.buffer_empty() && !self.element_cached(),
            self.element_cached() ==> !self.buffer_empty() && !self.end_cached(),
            self.end_cached() ==> self.elements().len() == 0,
            self.element_cached() ==> self.elements().len() >= 1,
            self.element_cached() ==> self.elements().drop_first() == self.source().elements(),
            self.buffer_empty() ==> self.elements() == self.source().elements(),
            self.elements().len() == 0 && !self.buffer_empty() ==> self.end_cached(),
    {
        if self.element_cached() {
            assert(self.elements().drop_first() =~= self.source().elements());
        }
    }

    /// Wraps a source, with the lookahead buffer empty: the adapter is
    /// transparent, presenting exactly the source's elements.
    pub fn new(lender: L) -> (r: Peekable<T, L>)
        requires
            lender.inv(),
        ensures
            r.inv(),
            r.elements() == lender.elements(),
            r.buffer_empty(),
            r.source() == lender,
    {
        Peekable { lender, peeked: None }
    }

    /// A reference to the next element, without consuming it: probes the
    /// source once if no probe is cached, and otherwise answers from the
    /// buffer. The remaining sequence is left exactly as it was, so
    /// repeated calls return the same element, and exhaustion, once
    /// observed, stays observed without the source being probed again.
    pub fn peek(&mut self) -> (r: Option<&T>)
        requires
            old(self).inv(),
        ensures
            final(self).inv(),
            final(self).elements() == old(self).elements(),
            !final(self).buffer_empty(),
            final(self).end_cached() <==> old(self).elements().len() == 0,
            old(self).elements().len() > 0 ==> final(self).element_cached(),
            final(self).source().elements() == after_front(old(self).elements()),
            !old(self).buffer_empty() ==> *final(self) == *old(self),
            match r {
                Some(v) => old(self).elements().len() > 0 && *v == old(self).elements()[0],
                None => old(self).elements().len() == 0,
            },
    {
        if self.peeked.is_none() {
            let n = self.lender.next();
            self.peeked = Some(n);
            proof {
                if old(self).elements().len() > 0 {
                    assert(self.elements() =~= old(self).elements());
                }
            }
        }
        proof {
            assert(self.lender.elements() =~= after_front(old(self).elements()));
        }
        match &self.peeked {
            Some(Some(v)) => Some(v),
            _ => None,
        }
    }

    /// Exclusive access to the next element, without consuming it: the
    /// caller may change the upcoming element in place before it is
    /// consumed by a later advance.
    pub fn peek_mut(&mut self) -> (r: Option<&mut T>)
        requires
            old(self).inv(),
        ensures
            final(self).inv(),
            old(self).elements().len() == 0 ==> r is None && final(self).elements() == old(
                self,
            ).elements() && final(self).end_cached(),
            old(self).elements().len() > 0 ==> r is Some && *r.unwrap() == old(self).elements()[0]
                && final(self).element_cached() && final(self).elements() == old(
                self,
            ).elements().update(0, *final(r.unwrap())),
            final(self).source().elements() == after_front(old(self).elements()),
    {
        if self.peeked.is_none() {
            let n = self.lender.next();
            self.peeked = Some(n);
        }
        proof {
            assert(self.lender.elements() =~= after_front(old(self).elements()));
        }
        match &mut self.peeked {
            Some(Some(v)) => {
                proof {
                    assert(old(self).elements().update(0, old(self).elements()[0]) =~= old(
                        self,
                    ).elements());
                }
                Some(v)
            },
            _ => None,
        }
    }

    /// Consumes and returns the next element only when `f` accepts it.
    /// When `f` rejects it — or no element is left — the outcome is put
    /// back into the buffer, so the remaining sequence is exactly as it
    /// was and a following `peek` or advance observes the same outcome.
    pub fn next_if<F: FnOnce(&T) -> bool>(&mut self, f: F) -> (r: Option<T>)
        requires
            old(self).inv(),
            forall|x: &T| #[trigger] call_requires(f, (x,)),
        ensures
            final(self).inv(),
            old(self).elements().len() == 0 ==> r is None && final(self).elements() == old(
                self,
            ).elements() && final(self).end_cached(),
            old(self).elements().len() > 0 ==> exists|keep: bool|
                {
                    &&& #[trigger] call_ensures(f, (&old(self).elements()[0],), keep)
                    &&& keep ==> r == Some(old(self).elements()[0]) && final(self).elements()
                        == old(self).elements().drop_first()
                    &&& !keep ==> r is None && final(self).elements() == old(self).elements()
                },
            r is Some ==> final(self).buffer_empty(),
            old(self).elements().len() > 0 && r is None ==> final(self).element_cached(),
            final(self).source().elements() == after_front(old(self).elements()),
    {
        let ghost oldel = self.elements();
        let n = match self.peeked.take() {
            Some(v) => v,
            None => self.lender.next(),
        };
        proof {
            assert(self.lender.elements() =~= after_front(oldel));
        }
        match n {
            Some(v) => {
                proof {
                    assert(oldel[0] == v);
                }
                if f(&v) {
                    proof {
                        assert(self.elements() =~= oldel.drop_first());
                    }
                    Some(v)
                } else {
                    self.peeked = Some(Some(v));
                    proof {
                        assert(self.elements() =~= oldel);
                    }
                    None
                }
            },
            None => {
                self.peeked = Some(None);
                None
            },
        }
    }

    /// Consumes and returns the next element only when it equals
    /// `expected`; otherwise the remaining sequence is exactly as it was.
    pub fn next_if_eq<U: PartialEq<T>>(&mut self, expected: &U) -> (r: Option<T>)
        requires
            old(self).inv(),
        ensures
            final(self).inv(),
            old(self).elements().len() == 0 ==> r is None && final(self).elements() == old(
                self,
            ).elements() && final(self).end_cached(),
            U::obeys_eq_spec() && old(self).elements().len() > 0 ==> {
                if expected.eq_spec(&old(self).elements()[0]) {
                    r == Some(old(self).elements()[0]) && final(self).elements() == old(
                        self,
                    ).elements().drop_first()
                } else {
                    r is None && final(self).elements() == old(self).elements()
                }
            },
            final(self).elements() == old(self).elements() || (old(self).elements().len() > 0 && r
                == Some(old(self).elements()[0]) && final(self).elements() == old(
                self,
            ).elements().drop_first()),
            r is Some ==> final(self).buffer_empty(),
            old(self).elements().len() > 0 && r is None ==> final(self).element_cached(),
            final(self).source().elements() == after_front(old(self).elements()),
    {
        let accepts = |v: &T| -> (keep: bool)
            ensures
                U::obeys_eq_spec() ==> keep == expected.eq_spec(v),
            { *expected == *v };
        self.next_if(accepts)
    }
}

impl<T, L: Lender<T>> Lender<T> for Peekable<T, L> {
    /// The buffered probe, if there is one, stands in front of what the
    /// source still holds; a cached end means nothing is left.
    closed spec fn elements(&self) -> Seq<T> {
        match self.peeked {
            None => self.lender.elements(),
            Some(None) => Seq::<T>::empty(),
            Some(Some(v)) => seq![v] + self.lender.elements(),
        }
    }

    /// The source is well formed, and an end is cached only once the
    /// source is truly exhausted.
    closed spec fn inv(&self) -> bool {
        &&& self.lender.inv()
        &&& self.end_cached() ==> self.lender.elements().len() == 0
    }

    /// Draining advance: a cached element is handed out and the buffer
    /// cleared, a cached end stays cached and keeps reporting exhaustion
    /// without the source being touched, and with an empty buffer the
    /// advance goes straight to the source.
    fn next(&mut self) -> (r: Option<T>)
        ensures
            old(self).end_cached() ==> final(self).end_cached() && final(self).source() == old(
                self,
            ).source(),
            old(self).element_cached() ==> final(self).buffer_empty() && final(self).source()
                == old(self).source(),
    {
        let ghost oldel = self.elements();
        match self.peeked.take() {
            Some(Some(v)) => {
                proof {
                    assert(oldel[0] == v);
                    assert(self.elements() =~= oldel.drop_first());
                }
                Some(v)
            },
            Some(None) => {
                self.peeked = Some(None);
                None
            },
            None => self.lender.next(),
        }
    }

    fn count(self) -> (r: usize) {
        match self.peeked {
            Some(None) => 0,
            Some(Some(_)) => 1 + self.lender.count(),
            None => self.lender.count(),
        }
    }

    /// Skipping accounts for the buffered element first; whichever path is
    /// taken, the lookahead slot is drained.
    fn nth(&mut self, n: usize) -> (r: Option<T>)
        ensures
            final(self).buffer_empty(),
    {
        let ghost oldel = self.elements();
        match self.peeked.take() {
            Some(None) => None,
            Some(Some(v)) => {
                if n == 0 {
                    proof {
                        assert(oldel[0] == v);
                        assert(self.elements() =~= oldel.skip(1));
                    }
                    Some(v)
                } else {
                    let r = self.lender.nth(n - 1);
                    proof {
                        if n < oldel.len() {
                            assert(self.elements() =~= oldel.skip(n + 1));
                        }
                    }
                    r
                }
            },
            None => self.lender.nth(n),
        }
    }

    fn last(self) -> (r: Option<T>) {
        match self.peeked {
            Some(None) => None,
            Some(Some(v)) => {
                match self.lender.last() {
                    Some(w) => Some(w),
                    None => Some(v),
                }
            },
            None => self.lender.last(),
        }
    }

    /// The buffered outcome is accounted for: a cached end pins both bounds
    /// at zero without the source being consulted, and a cached element
    /// contributes one to each bound (saturating below, overflowing to "no
    /// bound" above).
    fn size_hint(&self) -> (r: (usize, Option<usize>))
        ensures
            self.end_cached() ==> r == (0usize, Some(0usize)),
            self.element_cached() ==> r.0 >= 1,
    {
        match &self.peeked {
            Some(None) => (0, Some(0)),
            Some(Some(_)) => {
                let (lo, hi) = self.lender.size_hint();
                let lo2 = if lo < usize::MAX {
                    lo + 1
                } else {
                    usize::MAX
                };
                let hi2 = match hi {
                    Some(h) => if h < usize::MAX {
                        Some(h + 1)
                    } else {
                        None
                    },
                    None => None,
                };
                (lo2, hi2)
            },
            None => self.lender.size_hint(),
        }
    }

    /// The buffered element is folded first, under the same short-circuit
    /// rules as the rest: when `f` breaks on it, the buffer is left empty
    /// rather than replayed — whichever path is taken, the lookahead slot
    /// is drained.
    fn try_fold<B, R, F: Fn(B, T) -> Flow<B, R>>(&mut self, init: B, f: F) -> (r: Flow<
        B,
        R,
    >)
        ensures
            final(self).buffer_empty(),
    {
        let ghost oldel = self.elements();
        let ghost ginit = init;
        match self.peeked.take() {
            Some(None) => {
                proof {
                    assert(try_folds_over(f, oldel, ginit, 0, Flow::<B, R>::Continue(ginit)));
                    assert(self.elements() =~= oldel.skip(0));
                }
                Flow::Continue(init)
            },
            Some(Some(v)) => {
                let ghost lel = self.lender.elements();
                let step = f(init, v);
                proof {
                    assert(oldel[0] == v);
                    assert(oldel.drop_first() =~= lel);
                }
                match step {
                    Flow::Continue(acc) => {
                        let ghost gacc = acc;
                        let r = self.lender.try_fold(acc, f);
                        proof {
                            let k1 = choose|k1: int|
                                {
                                    &&& 0 <= k1 <= lel.len()
                                    &&& #[trigger] try_folds_over(f, lel, gacc, k1, r)
                                    &&& self.lender.elements() == lel.skip(k1)
                                };
                            assert(call_ensures(
                                f,
                                (ginit, oldel[0]),
                                Flow::<B, R>::Continue(gacc),
                            ));
                            assert(try_folds_over(f, oldel, ginit, k1 + 1, r));
                            assert(self.elements() =~= oldel.skip(k1 + 1));
                        }
                        r
                    },
                    Flow::Break(res) => {
                        proof {
                            assert(call_ensures(f, (ginit, oldel[0]), Flow::<B, R>::Break(res)));
                            assert(try_folds_over(f, oldel, ginit, 1, Flow::<B, R>::Break(res)));
                            assert(self.elements() =~= oldel.skip(1));
                        }
                        Flow::Break(res)
                    },
                }
            },
            None => self.lender.try_fold(init, f),
        }
    }

    fn fold<B, F: Fn(B, T) -> B>(self, init: B, f: F) -> (r: B) {
        let ghost oldel = self.elements();
        let ghost ginit = init;
        match self.peeked {
            Some(None) => init,
            Some(Some(v)) => {
                let ghost lel = self.lender.elements();
                let acc = f(init, v);
                let ghost gacc = acc;
                let r = self.lender.fold(acc, f);
                proof {
                    assert(oldel[0] == v);
                    assert(oldel.drop_first() =~= lel);
                    assert(call_ensures(f, (ginit, oldel[0]), gacc));
                    assert(folds_over(f, oldel, ginit, r));
                }
                r
            },
            None => self.lender.fold(init, f),
        }
    }
}

impl<T, L: DoubleEndedLender<T>> DoubleEndedLender<T> for Peekable<T, L> {
    /// A backward advance prefers draining the source from the back and
    /// falls back to the buffered element — the front of the remaining
    /// sequence — only once the source is exhausted. A cached end stays
    /// cached, honoured from the back as well without the source being
    /// touched; a buffered element is retained while the source can still
    /// serve from the back.
    fn next_back(&mut self) -> (r: Option<T>)
        ensures
            old(self).end_cached() ==> final(self).end_cached() && final(self).source() == old(
                self,
            ).source(),
            old(self).element_cached() && old(self).source().elements().len() > 0
                ==> final(self).element_cached(),
            old(self).element_cached() && old(self).source().elements().len() == 0
                ==> final(self).buffer_empty(),
    {
        let ghost oldel = self.elements();
        match self.peeked.take() {
            None => self.lender.next_back(),
            Some(None) => {
                self.peeked = Some(None);
                None
            },
            Some(Some(v)) => {
                match self.lender.next_back() {
                    Some(w) => {
                        self.peeked = Some(Some(v));
                        proof {
                            assert(oldel.last() == w);
                            assert(self.elements() =~= oldel.drop_last());
                        }
                        Some(w)
                    },
                    None => {
                        proof {
                            assert(oldel.len() == 1);
                            assert(oldel.last() == v);
                            assert(self.elements() =~= oldel.drop_last());
                        }
                        Some(v)
                    },
                }
            },
        }
    }

    /// The source is folded from the back first; the buffered element, the
    /// front of the remaining sequence, comes last. When the fold breaks
    /// inside the source, the buffered element has not been visited and is
    /// restored rather than discarded.
    fn try_rfold<B, R, F: Fn(B, T) -> Flow<B, R> + Copy>(&mut self, init: B, f: F) -> (r:
        Flow<B, R>) {
        let ghost oldel = self.elements();
        let ghost ginit = init;
        match self.peeked.take() {
            None => self.lender.try_rfold(init, f),
            Some(None) => {
                self.peeked = Some(None);
                proof {
                    assert(oldel.reverse().len() == 0);
                    assert(try_folds_over(
                        f,
                        oldel.reverse(),
                        ginit,
                        0,
                        Flow::<B, R>::Continue(ginit),
                    ));
                    assert(self.elements() =~= oldel.take(0));
                }
                Flow::Continue(init)
            },
            Some(Some(v)) => {
                let ghost lel = self.lender.elements();
                let r1 = self.lender.try_rfold(init, f);
                proof {
                    assert(oldel =~= seq![v] + lel);
                    assert(oldel.reverse() =~= lel.reverse().push(v));
                }
                match r1 {
                    Flow::Continue(acc) => {
                        let ghost gacc = acc;
                        let step = f(acc, v);
                        proof {
                            let k1 = choose|k1: int|
                                {
                                    &&& 0 <= k1 <= lel.len()
                                    &&& #[trigger] try_folds_over(
                                        f,
                                        lel.reverse(),
                                        ginit,
                                        k1,
                                        Flow::<B, R>::Continue(gacc),
                                    )
                                    &&& self.lender.elements() == lel.take(lel.len() - k1)
                                };
                            lemma_try_folds_over_continue_len(
                                f,
                                lel.reverse(),
                                ginit,
                                k1,
                                gacc,
                            );
                            lemma_try_folds_over_snoc(f, lel.reverse(), ginit, gacc, v, step);
                            assert(try_folds_over(
                                f,
                                oldel.reverse(),
                                ginit,
                                oldel.len() as int,
                                step,
                            ));
                            assert(self.elements() =~= oldel.take(0));
                        }
                        step
                    },
                    Flow::Break(res) => {
                        self.peeked = Some(Some(v));
                        proof {
                            let k1 = choose|k1: int|
                                {
                                    &&& 0 <= k1 <= lel.len()
                                    &&& #[trigger] try_folds_over(
                                        f,
                                        lel.reverse(),
                                        ginit,
                                        k1,
                                        Flow::<B, R>::Break(res),
                                    )
                                    &&& self.lender.elements() == lel.take(lel.len() - k1)
                                };
                            lemma_try_folds_over_break_extends(
                                f,
                                lel.reverse(),
                                seq![v],
                                ginit,
                                k1,
                                res,
                            );
                            assert(lel.reverse() + seq![v] =~= oldel.reverse());
                            assert(self.elements() =~= oldel.take(oldel.len() - k1));
                        }
                        Flow::Break(res)
                    },
                }
            },
        }
    }

    /// The source is folded from the back first, then the buffered element,
    /// the front of the remaining sequence, last.
    fn rfold<B, F: Fn(B, T) -> B + Copy>(self, init: B, f: F) -> (r: B) {
        let ghost oldel = self.elements();
        let ghost ginit = init;
        match self.peeked {
            None => self.lender.rfold(init, f),
            Some(None) => {
                proof {
                    assert(oldel.reverse().len() == 0);
                    assert(folds_over(f, oldel.reverse(), ginit, ginit));
                }
                init
            },
            Some(Some(v)) => {
                let ghost lel = self.lender.elements();
                let acc = self.lender.rfold(init, f);
                let ghost gacc = acc;
                let r = f(acc, v);
                proof {
                    lemma_folds_over_snoc(f, lel.reverse(), ginit, gacc, v, r);
                    assert(oldel.reverse() =~= lel.reverse().push(v));
                }
                r
            },
        }
    }
}

impl<T, L: ExactSizeLender<T>> ExactSizeLender<T> for Peekable<T, L> {
    /// The buffered element contributes exactly one to the source's exact
    /// count; a cached end pins the count at zero.
    fn len(&self) -> (r: usize) {
        match &self.peeked {
            Some(None) => 0,
            Some(Some(_)) => 1 + self.lender.len(),
            None => self.lender.len(),
        }
    }
}

/// An exhausted adapter over a fused source stays exhausted: a cached end
/// is terminal and is never repopulated.
impl<T, L: FusedLender<T>> FusedLender<T> for Peekable<T, L> {

}

impl<T, L: Lender<T> + Clone> Clone for Peekable<T, L> {
    /// Duplicates the adapter without duplicating a live buffered element:
    /// the duplicate starts with an empty buffer over a duplicate of the
    /// source, since a buffered element's validity cannot be shared.
    fn clone(&self) -> (r: Self)
        ensures
            r.buffer_empty(),
            cloned::<L>(self.source(), r.source()),
            r.source().inv() ==> r.inv(),
    {
        Peekable { lender: self.lender.clone(), peeked: None }
    }
}

} // verus!
