use lender::DoubleEndedLender;
use lender::ExactSizeLender;
use lender::Flow;
use lender::Lender;
use lender::Peekable;
use lender::VecLender;

fn adapter(items: Vec<u64>) -> Peekable<u64, VecLender<u64>> {
    Peekable::new(VecLender::new(items))
}

#[test]
fn scenario_peek_and_conditional_consume() {
    let mut p = adapter(vec![1, 2, 3]);
    assert_eq!(p.peek(), Some(&1));
    assert_eq!(p.peek(), Some(&1));
    assert_eq!(p.next(), Some(1));
    assert_eq!(p.next_if(|v: &u64| *v == 2), Some(2));
    assert_eq!(p.next_if(|v: &u64| *v == 2), None);
    assert_eq!(p.peek(), Some(&3));
    assert_eq!(p.next(), Some(3));
    assert_eq!(p.next(), None);
}

#[test]
fn transparency_matches_direct_draining() {
    let mut direct = VecLender::new(vec![10u64, 20, 30, 40]);
    let mut adapted = adapter(vec![10, 20, 30, 40]);
    loop {
        let a = direct.next();
        let b = adapted.next();
        assert_eq!(a, b);
        if a.is_none() {
            break;
        }
    }
}

#[test]
fn peek_is_idempotent_and_advance_returns_it_once() {
    let mut p = adapter(vec![7, 8]);
    let first = *p.peek().unwrap();
    for _ in 0..5 {
        assert_eq!(p.peek(), Some(&first));
    }
    assert_eq!(p.next(), Some(first));
    assert_eq!(p.peek(), Some(&8));
}

#[test]
fn next_if_consumes_exactly_when_the_predicate_holds() {
    let mut p = adapter(vec![4, 5]);
    assert_eq!(p.next_if(|v: &u64| *v % 2 == 1), None);
    assert_eq!(p.peek(), Some(&4));
    assert_eq!(p.next_if(|v: &u64| *v % 2 == 0), Some(4));
    assert_eq!(p.peek(), Some(&5));
}

#[test]
fn next_if_eq_consumes_exactly_on_equality() {
    let mut p = adapter(vec![7, 8]);
    assert_eq!(p.next_if_eq(&9), None);
    assert_eq!(p.next_if_eq(&7), Some(7));
    assert_eq!(p.next_if_eq(&8), Some(8));
    assert_eq!(p.next_if_eq(&8), None);
}

#[test]
fn exhaustion_observed_by_peek_stays_observed() {
    let mut p = adapter(vec![]);
    assert_eq!(p.peek(), None);
    assert_eq!(p.next(), None);
    assert_eq!(p.peek(), None);
    assert_eq!(p.next_if(|_v: &u64| true), None);
    assert_eq!(p.peek(), None);
}

#[test]
fn count_after_advances_is_total_minus_steps() {
    let total: Vec<u64> = vec![1, 2, 3, 4, 5];
    for k in 0..=total.len() {
        let mut p = adapter(total.clone());
        for _ in 0..k {
            assert!(p.next().is_some());
        }
        assert_eq!(p.count(), total.len() - k);
    }
}

#[test]
fn last_equals_final_element_of_repeated_advance() {
    let mut by_steps = adapter(vec![1u64, 2, 3]);
    let mut last_seen = None;
    while let Some(v) = by_steps.next() {
        last_seen = Some(v);
    }
    let in_bulk = adapter(vec![1u64, 2, 3]);
    assert_eq!(in_bulk.last(), last_seen);
}

#[test]
fn last_falls_back_to_the_buffered_element() {
    let mut p = adapter(vec![42]);
    assert_eq!(p.peek(), Some(&42));
    assert_eq!(p.last(), Some(42));
    let empty = adapter(vec![]);
    assert_eq!(empty.last(), None);
}

#[test]
fn count_includes_the_buffered_element() {
    let mut p = adapter(vec![1, 2, 3]);
    assert_eq!(p.peek(), Some(&1));
    assert_eq!(p.count(), 3);
    let mut q = adapter(vec![]);
    assert_eq!(q.peek(), None);
    assert_eq!(q.count(), 0);
}

#[test]
fn nth_accounts_for_the_buffer() {
    let mut p = adapter(vec![1, 2, 3, 4]);
    assert_eq!(p.peek(), Some(&1));
    assert_eq!(p.nth(0), Some(1));
    assert_eq!(p.peek(), Some(&2));
    assert_eq!(p.nth(1), Some(3));
    assert_eq!(p.next(), Some(4));
    assert_eq!(p.nth(0), None);
}

#[test]
fn size_hint_counts_the_buffer_and_pins_the_cached_end() {
    let mut p = adapter(vec![1, 2, 3]);
    assert_eq!(p.size_hint(), (3, Some(3)));
    assert_eq!(p.peek(), Some(&1));
    assert_eq!(p.size_hint(), (3, Some(3)));
    let mut q = adapter(vec![]);
    assert_eq!(q.peek(), None);
    assert_eq!(q.size_hint(), (0, Some(0)));
}

#[test]
fn exact_len_counts_the_buffer() {
    let mut p = adapter(vec![1, 2]);
    assert_eq!(p.len(), 2);
    assert_eq!(p.peek(), Some(&1));
    assert_eq!(p.len(), 2);
    assert_eq!(p.next(), Some(1));
    assert_eq!(p.len(), 1);
}

#[test]
fn fold_runs_front_first_over_buffer_and_source() {
    let mut p = adapter(vec![1, 2, 3]);
    assert_eq!(p.peek(), Some(&1));
    assert_eq!(p.fold(0u64, |acc: u64, x: u64| acc * 10 + x), 123);
}

#[test]
fn rfold_runs_back_first_and_ends_on_the_buffer() {
    let mut p = adapter(vec![1, 2, 3]);
    assert_eq!(p.peek(), Some(&1));
    assert_eq!(p.rfold(0u64, |acc: u64, x: u64| acc * 10 + x), 321);
}

#[test]
fn try_fold_completes_with_the_accumulator() {
    let mut p = adapter(vec![1, 2, 3]);
    let r: Flow<u64, u64> = p.try_fold(0u64, |acc: u64, x: u64| Flow::Continue(acc + x));
    assert_eq!(r, Flow::Continue(6));
    assert_eq!(p.next(), None);
}

#[test]
fn try_fold_break_on_the_buffered_element_drains_the_buffer() {
    let mut p = adapter(vec![1, 2, 3]);
    assert_eq!(p.peek(), Some(&1));
    let r: Flow<u64, u64> = p.try_fold(0u64, |acc: u64, x: u64| {
        if x >= 1 {
            Flow::Break(acc + 100 * x)
        } else {
            Flow::Continue(acc + x)
        }
    });
    assert_eq!(r, Flow::Break(100));
    assert_eq!(p.next(), Some(2));
}

#[test]
fn try_fold_breaks_inside_the_source() {
    let mut p = adapter(vec![1, 2, 3, 4]);
    let r: Flow<u64, u64> = p.try_fold(0u64, |acc: u64, x: u64| {
        if x < 3 {
            Flow::Continue(acc + x)
        } else {
            Flow::Break(acc)
        }
    });
    assert_eq!(r, Flow::Break(3));
    assert_eq!(p.next(), Some(4));
    assert_eq!(p.next(), None);
}

#[test]
fn try_rfold_break_in_the_source_restores_the_buffered_element() {
    let mut p = adapter(vec![1, 2, 3]);
    assert_eq!(p.peek(), Some(&1));
    let r: Flow<u64, u64> = p.try_rfold(0u64, |acc: u64, x: u64| {
        if x == 3 {
            Flow::Break(acc + x)
        } else {
            Flow::Continue(acc + x)
        }
    });
    assert_eq!(r, Flow::Break(3));
    assert_eq!(p.peek(), Some(&1));
    assert_eq!(p.next(), Some(1));
    assert_eq!(p.next(), Some(2));
    assert_eq!(p.next(), None);
}

#[test]
fn try_rfold_completes_through_the_buffered_element() {
    let mut p = adapter(vec![1, 2, 3]);
    assert_eq!(p.peek(), Some(&1));
    let r: Flow<u64, u64> = p.try_rfold(0u64, |acc: u64, x: u64| Flow::Continue(acc * 10 + x));
    assert_eq!(r, Flow::Continue(321));
    assert_eq!(p.next(), None);
}

#[test]
fn back_advance_prefers_the_source_and_meets_the_front_once() {
    let mut p = adapter(vec![1, 2, 3, 4]);
    assert_eq!(p.peek(), Some(&1));
    assert_eq!(p.next_back(), Some(4));
    assert_eq!(p.next(), Some(1));
    assert_eq!(p.next_back(), Some(3));
    assert_eq!(p.next(), Some(2));
    assert_eq!(p.next_back(), None);
    assert_eq!(p.next(), None);
}

#[test]
fn back_advance_falls_back_to_the_buffered_element() {
    let mut p = adapter(vec![1, 2]);
    assert_eq!(p.peek(), Some(&1));
    assert_eq!(p.next_back(), Some(2));
    assert_eq!(p.next_back(), Some(1));
    assert_eq!(p.next_back(), None);
}

#[test]
fn peek_mut_changes_the_upcoming_element_in_place() {
    let mut p = adapter(vec![5, 6]);
    *p.peek_mut().unwrap() = 50;
    assert_eq!(p.peek(), Some(&50));
    assert_eq!(p.next(), Some(50));
    assert_eq!(p.next(), Some(6));
    assert_eq!(p.next(), None);
    assert!(p.peek_mut().is_none());
}

#[test]
fn clone_duplicates_the_source_but_not_the_buffered_element() {
    let mut p = adapter(vec![1, 2, 3]);
    assert_eq!(p.peek(), Some(&1));
    let mut q = p.clone();
    assert_eq!(q.next(), Some(2));
    assert_eq!(p.next(), Some(1));
    assert_eq!(p.next(), Some(2));
}

#[test]
fn vec_source_advances_from_both_ends() {
    let mut l = VecLender::new(vec![1u64, 2, 3]);
    assert_eq!(l.size_hint(), (3, Some(3)));
    assert_eq!(l.next(), Some(1));
    assert_eq!(l.next_back(), Some(3));
    assert_eq!(l.len(), 1);
    assert_eq!(l.next(), Some(2));
    assert_eq!(l.next(), None);
    assert_eq!(l.next_back(), None);
}

#[test]
fn vec_source_bulk_operations_agree_with_stepping() {
    let mut l = VecLender::new(vec![9u64, 8, 7, 6]);
    assert_eq!(l.nth(1), Some(8));
    assert_eq!(l.fold(0u64, |acc: u64, x: u64| acc * 10 + x), 76);
    let l2 = VecLender::new(vec![9u64, 8, 7, 6]);
    assert_eq!(l2.rfold(0u64, |acc: u64, x: u64| acc * 10 + x), 6789);
    let mut l3 = VecLender::new(vec![9u64, 8]);
    let r: Flow<u64, u64> =
        l3.try_fold(0u64, |acc: u64, x: u64| if x == 8 { Flow::Break(acc) } else { Flow::Continue(acc + x) });
    assert_eq!(r, Flow::Break(9));
    assert_eq!(l3.count(), 0);
}
