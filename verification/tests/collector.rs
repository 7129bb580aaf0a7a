use hifi_decode::collector::Collector;

/// Every order of `items`.
fn orders(items: &[usize]) -> Vec<Vec<usize>> {
    if items.is_empty() {
        return vec![Vec::new()];
    }
    let mut all = Vec::new();
    for (i, &first) in items.iter().enumerate() {
        let mut rest = items.to_vec();
        rest.remove(i);
        for mut order in orders(&rest) {
            order.insert(0, first);
            all.push(order);
        }
    }
    all
}

#[test]
fn results_come_out_in_block_order_whatever_order_they_arrive_in() {
    for order in orders(&[0, 1, 2, 3, 4, 5]) {
        let mut collector = Collector::new();
        let mut out = Vec::new();
        for &index in &order {
            out.extend(collector.accept(index, index * 10));
            // What is out is always the first results, in order.
            let expected: Vec<usize> = (0..out.len()).map(|i| i * 10).collect();
            assert_eq!(out, expected);
        }
        assert_eq!(out, vec![0, 10, 20, 30, 40, 50]);
        assert!(collector.is_drained());
    }
}

#[test]
fn a_result_waits_for_its_turn() {
    let mut collector = Collector::new();
    assert_eq!(collector.accept(2, 'c'), Vec::<char>::new());
    assert!(!collector.is_drained());
    assert_eq!(collector.accept(0, 'a'), vec!['a']);
    assert_eq!(collector.accept(1, 'b'), vec!['b', 'c']);
    assert!(collector.is_drained());
}

#[test]
fn a_gap_holds_everything_behind_it_back() {
    let mut collector = Collector::new();
    for index in 1..50 {
        assert!(collector.accept(index, index).is_empty());
    }
    assert_eq!(collector.accept(0, 0), (0..50).collect::<Vec<usize>>());
}
