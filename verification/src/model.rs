use vstd::prelude::*;

use crate::control::Flow;

verus! {

/// The element one forward advance of a source holding `s` returns.
pub open spec fn front_of<T>(s: Seq<T>) -> Option<T> {
    if s.len() == 0 {
        None
    } else {
        Some(s[0])
    }
}

/// What remains of `s` after one forward advance.
pub open spec fn after_front<T>(s: Seq<T>) -> Seq<T> {
    if s.len() == 0 {
        s
    } else {
        s.drop_first()
    }
}

/// The element one backward advance of a source holding `s` returns.
pub open spec fn back_of<T>(s: Seq<T>) -> Option<T> {
    if s.len() == 0 {
        None
    } else {
        Some(s.last())
    }
}

/// What remains of `s` after one backward advance.
pub open spec fn before_back<T>(s: Seq<T>) -> Seq<T> {
    if s.len() == 0 {
        s
    } else {
        s.drop_last()
    }
}

/// What is left of `s` after `k` forward advances, each taken one step at
/// a time.
pub open spec fn after_advances<T>(s: Seq<T>, k: nat) -> Seq<T>
    decreases k,
{
    if k == 0 {
        s
    } else {
        after_advances(after_front(s), (k - 1) as nat)
    }
}

/// What is left of `s` after `k` backward advances, each taken one step at
/// a time.
pub open spec fn after_back_advances<T>(s: Seq<T>, k: nat) -> Seq<T>
    decreases k,
{
    if k == 0 {
        s
    } else {
        after_back_advances(before_back(s), (k - 1) as nat)
    }
}

/// Transparency of stepping: `k` single forward advances drop exactly the
/// first `k` elements, the `k`-th advance returns exactly the `k`-th
/// element of the starting sequence, and the remaining count shrinks by
/// one per advance. A bulk count taken after `k` advances therefore equals
/// the starting count minus `k`.
pub proof fn lemma_stepwise_advance<T>(s: Seq<T>, k: nat)
    requires
        k <= s.len(),
    ensures
        after_advances(s, k) == s.skip(k as int),
        after_advances(s, k).len() == s.len() - k,
        k < s.len() ==> front_of(after_advances(s, k)) == Some(s[k as int]),
    decreases k,
{
    if k == 0 {
        assert(after_advances(s, 0) =~= s.skip(0));
    } else {
        lemma_stepwise_advance(after_front(s), (k - 1) as nat);
        assert(after_front(s).skip(k - 1) =~= s.skip(k as int));
    }
}

/// Transparency of backward stepping: `k` single backward advances drop
/// exactly the last `k` elements.
pub proof fn lemma_stepwise_back_advance<T>(s: Seq<T>, k: nat)
    requires
        k <= s.len(),
    ensures
        after_back_advances(s, k) == s.take(s.len() - k),
        after_back_advances(s, k).len() == s.len() - k,
    decreases k,
{
    if k == 0 {
        assert(after_back_advances(s, 0) =~= s.take(s.len() as int));
    } else {
        lemma_stepwise_back_advance(before_back(s), (k - 1) as nat);
        assert(before_back(s).take(s.len() - k) =~= s.take(s.len() - k));
    }
}

/// Bidirectional consistency: interleaving `i` forward advances with `j`
/// backward advances leaves exactly the middle part of the sequence, so
/// the two directions never duplicate or skip an element and meet exactly
/// once, when `i + j` reaches the length.
pub proof fn lemma_bidirectional_meet<T>(s: Seq<T>, i: nat, j: nat)
    requires
        i + j <= s.len(),
    ensures
        after_back_advances(after_advances(s, i), j) == s.subrange(
            i as int,
            s.len() - j,
        ),
        i + j == s.len() ==> after_back_advances(after_advances(s, i), j).len() == 0,
{
    lemma_stepwise_advance(s, i);
    let u = after_advances(s, i);
    lemma_stepwise_back_advance(u, j);
    assert(u.take(u.len() - j) =~= s.subrange(i as int, s.len() - j));
}

/// Holds when `r` is a possible result of folding `f` over the elements of
/// `s` in order, starting from the accumulator `init`.
pub open spec fn folds_over<T, B, F: Fn(B, T) -> B>(f: F, s: Seq<T>, init: B, r: B) -> bool
    decreases s.len(),
{
    if s.len() == 0 {
        r == init
    } else {
        exists|m: B|
            #[trigger] call_ensures(f, (init, s[0]), m) && folds_over(f, s.drop_first(), m, r)
    }
}

/// Holds when a short-circuiting fold of `f` over `s` from `init` can
/// consume exactly the first `k` elements and end with outcome `r`: the
/// fold ends with `Flow::Continue` only by consuming all of `s`, and ends
/// with `Flow::Break` by stopping at element `k - 1`, which is consumed.
pub open spec fn try_folds_over<T, B, R, F: Fn(B, T) -> Flow<B, R>>(
    f: F,
    s: Seq<T>,
    init: B,
    k: int,
    r: Flow<B, R>,
) -> bool
    decreases s.len(),
{
    if s.len() == 0 {
        k == 0 && r == Flow::<B, R>::Continue(init)
    } else {
        exists|step: Flow<B, R>|
            #[trigger] call_ensures(f, (init, s[0]), step) && match step {
                Flow::Continue(m) => try_folds_over(f, s.drop_first(), m, k - 1, r),
                Flow::Break(res) => k == 1 && r == Flow::<B, R>::Break(res),
            }
    }
}

/// Extending a completed fold by one more element at the back.
pub proof fn lemma_folds_over_snoc<T, B, F: Fn(B, T) -> B>(f: F, s: Seq<T>, init: B, acc: B, x: T, r: B)
    requires
        folds_over(f, s, init, acc),
        call_ensures(f, (acc, x), r),
    ensures
        folds_over(f, s.push(x), init, r),
    decreases s.len(),
{
    if s.len() == 0 {
        assert(s.push(x)[0] == x);
        assert(s.push(x).drop_first() =~= Seq::<T>::empty());
        assert(folds_over(f, s.push(x).drop_first(), r, r));
    } else {
        let m = choose|m: B|
            #[trigger] call_ensures(f, (init, s[0]), m) && folds_over(f, s.drop_first(), m, acc);
        lemma_folds_over_snoc(f, s.drop_first(), m, acc, x, r);
        assert(s.push(x).drop_first() =~= s.drop_first().push(x));
        assert(s.push(x)[0] == s[0]);
    }
}

/// A short-circuiting fold that consumed all of `s` and still continues
/// takes exactly one more step on one more element at the back; that step's
/// own outcome is the outcome of the extended fold, and the element is
/// consumed whether the step continues or breaks.
pub proof fn lemma_try_folds_over_snoc<T, B, R, F: Fn(B, T) -> Flow<B, R>>(
    f: F,
    s: Seq<T>,
    init: B,
    acc: B,
    x: T,
    step: Flow<B, R>,
)
    requires
        try_folds_over(f, s, init, s.len() as int, Flow::<B, R>::Continue(acc)),
        call_ensures(f, (acc, x), step),
    ensures
        try_folds_over(f, s.push(x), init, s.len() as int + 1, step),
    decreases s.len(),
{
    if s.len() == 0 {
        assert(s.push(x)[0] == x);
        assert(s.push(x).drop_first() =~= Seq::<T>::empty());
        match step {
            Flow::Continue(m) => {
                assert(try_folds_over(f, s.push(x).drop_first(), m, 0, Flow::<B, R>::Continue(m)));
            },
            Flow::Break(_) => {},
        }
    } else {
        let fst = choose|fst: Flow<B, R>|
            #[trigger] call_ensures(f, (init, s[0]), fst) && match fst {
                Flow::Continue(m) => try_folds_over(
                    f,
                    s.drop_first(),
                    m,
                    s.len() - 1,
                    Flow::<B, R>::Continue(acc),
                ),
                Flow::Break(res) => s.len() as int == 1 && Flow::<B, R>::Continue(acc)
                    == Flow::<B, R>::Break(res),
            };
        match fst {
            Flow::Continue(m) => {
                lemma_try_folds_over_snoc(f, s.drop_first(), m, acc, x, step);
                assert(s.push(x).drop_first() =~= s.drop_first().push(x));
                assert(s.push(x)[0] == s[0]);
            },
            Flow::Break(_) => {},
        }
    }
}

/// A fold that broke early is unaffected by elements standing behind the
/// point where it broke.
pub proof fn lemma_try_folds_over_break_extends<T, B, R, F: Fn(B, T) -> Flow<B, R>>(
    f: F,
    s: Seq<T>,
    ext: Seq<T>,
    init: B,
    k: int,
    res: R,
)
    requires
        try_folds_over(f, s, init, k, Flow::<B, R>::Break(res)),
    ensures
        try_folds_over(f, s + ext, init, k, Flow::<B, R>::Break(res)),
    decreases s.len(),
{
    if s.len() == 0 {
    } else {
        let fst = choose|fst: Flow<B, R>|
            #[trigger] call_ensures(f, (init, s[0]), fst) && match fst {
                Flow::Continue(m) => try_folds_over(
                    f,
                    s.drop_first(),
                    m,
                    k - 1,
                    Flow::<B, R>::Break(res),
                ),
                Flow::Break(b) => k == 1 && Flow::<B, R>::Break(res) == Flow::<B, R>::Break(b),
            };
        assert((s + ext)[0] == s[0]);
        match fst {
            Flow::Continue(m) => {
                lemma_try_folds_over_break_extends(f, s.drop_first(), ext, m, k - 1, res);
                assert((s + ext).drop_first() =~= s.drop_first() + ext);
            },
            Flow::Break(_) => {},
        }
    }
}

/// A short-circuiting fold continues past the end of the sequence only by
/// consuming every element.
pub proof fn lemma_try_folds_over_continue_len<T, B, R, F: Fn(B, T) -> Flow<B, R>>(
    f: F,
    s: Seq<T>,
    init: B,
    k: int,
    acc: B,
)
    requires
        try_folds_over(f, s, init, k, Flow::<B, R>::Continue(acc)),
    ensures
        k == s.len(),
    decreases s.len(),
{
    if s.len() == 0 {
    } else {
        let fst = choose|fst: Flow<B, R>|
            #[trigger] call_ensures(f, (init, s[0]), fst) && match fst {
                Flow::Continue(m) => try_folds_over(
                    f,
                    s.drop_first(),
                    m,
                    k - 1,
                    Flow::<B, R>::Continue(acc),
                ),
                Flow::Break(b) => k == 1 && Flow::<B, R>::Continue(acc) == Flow::<B, R>::Break(b),
            };
        match fst {
            Flow::Continue(m) => {
                lemma_try_folds_over_continue_len(f, s.drop_first(), m, k - 1, acc);
            },
            Flow::Break(_) => {},
        }
    }
}

} // verus!
