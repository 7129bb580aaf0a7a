use hifi_decode::delivery::{Delivery, FirstError};

/// Delivers the results of blocks `0..n`, arriving in `order`, to someone who
/// refuses those in `refused`.
fn deliver(order: &[usize], refused: &[usize]) -> (Vec<usize>, Result<(), String>) {
    let mut delivery = Delivery::new();
    let mut calls = Vec::new();
    for &index in order {
        delivery.arrive(index, index);
        while let Some(block) = delivery.next() {
            calls.push(block);
            delivery.answer(if refused.contains(&block) {
                Err(format!("block {block}"))
            } else {
                Ok(())
            });
        }
    }
    assert!(delivery.is_drained());
    (calls, delivery.into_result())
}

#[test]
fn everything_is_handed_on_where_nothing_is_refused() {
    assert_eq!(deliver(&[2, 0, 1, 4, 3], &[]), (vec![0, 1, 2, 3, 4], Ok(())));
    assert_eq!(deliver(&[], &[]), (Vec::new(), Ok(())));
}

#[test]
fn the_first_refusal_ends_the_delivery_and_is_its_result() {
    for order in [[0, 1, 2, 3, 4], [4, 3, 2, 1, 0], [1, 0, 4, 2, 3], [2, 4, 0, 1, 3]] {
        for first in 0..5 {
            let (calls, result) = deliver(&order, &[first, 4]);
            assert_eq!(calls, (0..=first).collect::<Vec<usize>>());
            assert_eq!(result, Err(format!("block {first}")));
        }
    }
}

#[test]
fn results_still_come_in_after_a_refusal() {
    let mut delivery = Delivery::new();
    delivery.arrive(0, 'a');
    delivery.arrive(1, 'b');
    assert_eq!(delivery.next(), Some('a'));
    delivery.answer(Err("full"));
    assert_eq!(delivery.next(), None);
    delivery.arrive(3, 'd');
    assert!(!delivery.is_drained());
    delivery.arrive(2, 'c');
    assert!(delivery.is_drained());
    assert_eq!(delivery.next(), None);
    assert_eq!(delivery.into_result(), Err("full"));
}

#[test]
fn a_delivery_waits_for_the_next_block() {
    let mut delivery: Delivery<char, ()> = Delivery::new();
    assert_eq!(delivery.next(), None);
    delivery.arrive(1, 'b');
    assert_eq!(delivery.next(), None);
    delivery.arrive(0, 'a');
    assert_eq!(delivery.next(), Some('a'));
    delivery.answer(Ok(()));
    assert_eq!(delivery.next(), Some('b'));
    delivery.answer(Ok(()));
    assert_eq!(delivery.next(), None);
    assert_eq!(delivery.into_result(), Ok(()));
}

#[test]
fn the_first_error_is_kept() {
    let mut first = FirstError::new();
    assert!(first.is_clear());
    first.note(7);
    first.note(8);
    assert!(!first.is_clear());
    assert_eq!(first.into_result(), Err(7));
    assert_eq!(FirstError::<u8>::new().into_result(), Ok(()));
}
