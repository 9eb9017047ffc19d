use vstd::prelude::*;

use crate::control::Flow;
use crate::model::folds_over;
use crate::model::lemma_folds_over_snoc;
use crate::model::lemma_try_folds_over_break_extends;
use crate::model::lemma_try_folds_over_snoc;
use crate::model::try_folds_over;
use crate::source::DoubleEndedLender;
use crate::source::ExactSizeLender;
use crate::source::FusedLender;
use crate::source::Lender;

verus! {

/// A sequence source backed by a vector: it produces the vector's elements
/// in order, handing each out by value. It serves as the reference source
/// of the protocol: reversible, fused, and of exactly known size.
#[derive(Clone, Debug)]
pub struct VecLender<T> {
    items: Vec<T>,
}

impl<T> VecLender<T> {
    /// Wraps a vector as a source of its elements, front first.
    pub fn new(items: Vec<T>) -> (r: VecLender<T>)
        ensures
            r.inv(),
            r.elements() == items@,
    {
        VecLender { items }
    }
}

impl<T> Lender<T> for VecLender<T> {
    closed spec fn elements(&self) -> Seq<T> {
        self.items@
    }

    closed spec fn inv(&self) -> bool {
        true
    }

    fn next(&mut self) -> (r: Option<T>) {
        if self.items.is_empty() {
            None
        } else {
            let v = self.items.remove(0);
            proof {
                assert(self.items@ =~= old(self).items@.drop_first());
            }
            Some(v)
        }
    }

    fn count(self) -> (r: usize) {
        self.items.len()
    }

    fn nth(&mut self, n: usize) -> (r: Option<T>) {
        let ghost s = self.items@;
        if n >= self.items.len() {
            self.items.clear();
            return None;
        }
        let mut i: usize = 0;
        while i < n
            invariant
                i <= n,
                n < s.len(),
                self.items@ == s.skip(i as int),
            decreases n - i,
        {
            let _ = self.items.remove(0);
            proof {
                assert(self.items@ =~= s.skip(i + 1));
            }
            i = i + 1;
        }
        let v = self.items.remove(0);
        proof {
            assert(v == s[n as int]);
            assert(self.items@ =~= s.skip(n + 1));
        }
        Some(v)
    }

    fn last(self) -> (r: Option<T>) {
        let mut items = self.items;
        items.pop()
    }

    /// This source's count is exact, so both bounds are the count itself.
    fn size_hint(&self) -> (r: (usize, Option<usize>))
        ensures
            r.0 == self.elements().len(),
            r.1 == Some(r.0),
    {
        let n = self.items.len();
        (n, Some(n))
    }

    fn fold<B, F: Fn(B, T) -> B>(self, init: B, f: F) -> (r: B) {
        let ghost s = self.items@;
        let ghost ginit = init;
        let mut items = self.items;
        let n = items.len();
        let mut acc = init;
        let mut i: usize = 0;
        proof {
            assert(s.take(0) =~= Seq::<T>::empty());
        }
        while i < n
            invariant
                forall|b: B, x: T| #[trigger] call_requires(f, (b, x)),
                n == s.len(),
                i <= n,
                items@ == s.skip(i as int),
                folds_over(f, s.take(i as int), ginit, acc),
            decreases n - i,
        {
            let ghost gacc = acc;
            let x = items.remove(0);
            proof {
                assert(x == s[i as int]);
                assert(items@ =~= s.skip(i + 1));
            }
            let next_acc = f(acc, x);
            proof {
                lemma_folds_over_snoc(f, s.take(i as int), ginit, gacc, x, next_acc);
                assert(s.take(i as int).push(s[i as int]) =~= s.take(i + 1));
            }
            acc = next_acc;
            i = i + 1;
        }
        proof {
            assert(s.take(i as int) =~= s);
        }
        acc
    }

    fn try_fold<B, R, F: Fn(B, T) -> Flow<B, R>>(&mut self, init: B, f: F) -> (r: Flow<B, R>) {
        let ghost s = self.items@;
        let ghost ginit = init;
        let n = self.items.len();
        let mut acc = init;
        let mut i: usize = 0;
        proof {
            assert(s.take(0) =~= Seq::<T>::empty());
        }
        #[verifier::loop_isolation(false)]
        while i < n
            invariant
                forall|b: B, x: T| #[trigger] call_requires(f, (b, x)),
                n == s.len(),
                i <= n,
                self.items@ == s.skip(i as int),
                try_folds_over(f, s.take(i as int), ginit, i as int, Flow::<B, R>::Continue(acc)),
            decreases n - i,
        {
            let ghost gacc = acc;
            let x = self.items.remove(0);
            proof {
                assert(x == s[i as int]);
                assert(self.items@ =~= s.skip(i + 1));
            }
            let step = f(acc, x);
            proof {
                assert(s.take(i as int).len() == i as int);
                lemma_try_folds_over_snoc(f, s.take(i as int), ginit, gacc, x, step);
                assert(s.take(i as int).push(s[i as int]) =~= s.take(i + 1));
            }
            match step {
                Flow::Continue(m) => {
                    acc = m;
                    i = i + 1;
                },
                Flow::Break(res) => {
                    proof {
                        lemma_try_folds_over_break_extends(
                            f,
                            s.take(i + 1),
                            s.skip(i + 1),
                            ginit,
                            i + 1,
                            res,
                        );
                        assert(s.take(i + 1) + s.skip(i + 1) =~= s);
                        assert(try_folds_over(f, s, init, i + 1, Flow::<B, R>::Break(res)));
                        assert(self.elements() == old(self).elements().skip(i + 1));
                    }
                    return Flow::Break(res);
                },
            }
        }
        proof {
            assert(i == s.len());
            assert(s.take(i as int) =~= s);
            assert(try_folds_over(f, s, init, i as int, Flow::<B, R>::Continue(acc)));
            assert(self.elements() == old(self).elements().skip(i as int));
        }
        Flow::Continue(acc)
    }
}

impl<T> DoubleEndedLender<T> for VecLender<T> {
    fn next_back(&mut self) -> (r: Option<T>) {
        let r = self.items.pop();
        proof {
            if old(self).items@.len() > 0 {
                assert(self.items@ =~= old(self).items@.drop_last());
            }
        }
        r
    }

    fn try_rfold<B, R, F: Fn(B, T) -> Flow<B, R> + Copy>(&mut self, init: B, f: F) -> (r: Flow<
        B,
        R,
    >) {
        let ghost s = self.items@;
        let ghost rev = s.reverse();
        let ghost ginit = init;
        let n = self.items.len();
        let mut acc = init;
        let mut i: usize = 0;
        proof {
            assert(rev.take(0) =~= Seq::<T>::empty());
        }
        #[verifier::loop_isolation(false)]
        while i < n
            invariant
                forall|b: B, x: T| #[trigger] call_requires(f, (b, x)),
                n == s.len(),
                i <= n,
                rev == s.reverse(),
                self.items@ == s.take(s.len() - i),
                try_folds_over(f, rev.take(i as int), ginit, i as int, Flow::<B, R>::Continue(acc)),
            decreases n - i,
        {
            let ghost gacc = acc;
            let x = self.items.pop().unwrap();
            proof {
                assert(x == s[s.len() - i - 1]);
                assert(rev[i as int] == s[s.len() - i - 1]);
                assert(self.items@ =~= s.take(s.len() - (i + 1)));
            }
            let step = f(acc, x);
            proof {
                assert(rev.take(i as int).len() == i as int);
                lemma_try_folds_over_snoc(f, rev.take(i as int), ginit, gacc, x, step);
                assert(rev.take(i as int).push(rev[i as int]) =~= rev.take(i + 1));
            }
            match step {
                Flow::Continue(m) => {
                    acc = m;
                    i = i + 1;
                },
                Flow::Break(res) => {
                    proof {
                        lemma_try_folds_over_break_extends(
                            f,
                            rev.take(i + 1),
                            rev.skip(i + 1),
                            ginit,
                            i + 1,
                            res,
                        );
                        assert(rev.take(i + 1) + rev.skip(i + 1) =~= rev);
                        assert(try_folds_over(
                            f,
                            old(self).elements().reverse(),
                            init,
                            i + 1,
                            Flow::<B, R>::Break(res),
                        ));
                        assert(self.elements() == old(self).elements().take(s.len() - (i + 1)));
                    }
                    return Flow::Break(res);
                },
            }
        }
        proof {
            assert(i == s.len());
            assert(rev.take(i as int) =~= rev);
            assert(try_folds_over(
                f,
                old(self).elements().reverse(),
                init,
                i as int,
                Flow::<B, R>::Continue(acc),
            ));
            assert(self.elements() == old(self).elements().take(s.len() - i));
        }
        Flow::Continue(acc)
    }

    fn rfold<B, F: Fn(B, T) -> B + Copy>(self, init: B, f: F) -> (r: B) {
        let ghost s = self.items@;
        let ghost rev = s.reverse();
        let ghost ginit = init;
        let mut items = self.items;
        let n = items.len();
        let mut acc = init;
        let mut i: usize = 0;
        proof {
            assert(rev.take(0) =~= Seq::<T>::empty());
        }
        while i < n
            invariant
                forall|b: B, x: T| #[trigger] call_requires(f, (b, x)),
                n == s.len(),
                i <= n,
                rev == s.reverse(),
                items@ == s.take(s.len() - i),
                folds_over(f, rev.take(i as int), ginit, acc),
            decreases n - i,
        {
            let ghost gacc = acc;
            let x = items.pop().unwrap();
            proof {
                assert(x == s[s.len() - i - 1]);
                assert(rev[i as int] == s[s.len() - i - 1]);
                assert(items@ =~= s.take(s.len() - (i + 1)));
            }
            let next_acc = f(acc, x);
            proof {
                lemma_folds_over_snoc(f, rev.take(i as int), ginit, gacc, x, next_acc);
                assert(rev.take(i as int).push(rev[i as int]) =~= rev.take(i + 1));
            }
            acc = next_acc;
            i = i + 1;
        }
        proof {
            assert(rev.take(i as int) =~= rev);
        }
        acc
    }
}

impl<T> ExactSizeLender<T> for VecLender<T> {
    fn len(&self) -> (r: usize) {
        self.items.len()
    }
}

impl<T> FusedLender<T> for VecLender<T> {

}

} // verus!
