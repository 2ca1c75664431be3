use dagq::physical::{
    Backwards, Batch, Constant, Forwards, Index, MergeJoin, Operator, OperatorExt, RangeExt, Rev,
    Unordered, CLOSURE_BATCH_SIZE,
};

#[test]
fn constant_returns_sorted_data_once() {
    let mut constant = Constant::<_, Forwards>::new(vec![Rev(2), Rev(5), Rev(3)]);
    assert_eq!(
        <Constant<Rev, Forwards> as Operator<Rev, Forwards>>::iter(&mut constant)
            .collect::<Vec<_>>(),
        vec![Rev(5), Rev(3), Rev(2)]
    );
    assert!(
        <Constant<Rev, Forwards> as Operator<Rev, Forwards>>::iter(&mut constant)
            .next()
            .is_none()
    );
}

#[test]
fn scan_reads_descending_range() {
    let index = Index::<_, Forwards>::new(vec![Rev(5), Rev(4), Rev(3), Rev(2), Rev(1)]);
    let mut scan = index.scan().with_start(Rev(4)).with_end(Rev(2));
    assert_eq!(
        scan.iter().collect::<Vec<_>>(),
        vec![Rev(4), Rev(3), Rev(2)]
    );
}

#[test]
fn closure_follows_reachable_edges() {
    let start = Constant::<_, Forwards>::new(vec![Rev(3)]);
    let edges = Constant::<_, Forwards>::new(vec![
        (Rev(1), Rev(0)),
        (Rev(2), Rev(1)),
        (Rev(3), Rev(2)),
        (Rev(4), Rev(5)),
    ]);
    let mut closure = start.closure(edges);

    assert_eq!(
        closure.iter().collect::<Vec<_>>(),
        vec![Rev(3), Rev(2), Rev(1), Rev(0)]
    );
}

#[test]
fn closure_limits_output_batches() {
    let start = Constant::<_, Forwards>::new(vec![Rev(2000)]);
    let edges =
        Constant::<_, Forwards>::new((1..=2000).map(|i| (Rev(i), Rev(i - 1))).collect());
    let mut closure = start.closure(edges);

    let mut batch = Batch::new(Vec::new());
    closure.next(&mut batch);
    assert_eq!(batch.data.len(), CLOSURE_BATCH_SIZE);
    assert_eq!(batch.data.first(), Some(&Rev(2000)));
    assert_eq!(batch.data.last(), Some(&Rev(977)));

    batch.data.clear();
    closure.next(&mut batch);
    assert_eq!(batch.data.len(), 2001 - CLOSURE_BATCH_SIZE);
    assert_eq!(batch.data.first(), Some(&Rev(976)));
    assert_eq!(batch.data.last(), Some(&Rev(0)));
}

#[test]
fn reverse_flips_ordering() {
    let input = Constant::<_, Forwards>::new(vec![Rev(5), Rev(3), Rev(1)]);
    let mut reversed = input.reverse();

    assert_eq!(
        reversed.iter().collect::<Vec<_>>(),
        vec![Rev(1), Rev(3), Rev(5)]
    );
}

#[test]
fn union_merges_sorted_inputs() {
    let left = Constant::<_, Forwards>::new(vec![Rev(5), Rev(3), Rev(1)]);
    let right = Constant::<_, Forwards>::new(vec![Rev(4), Rev(3), Rev(2)]);
    let mut union = left.union(right);

    assert_eq!(
        union.iter().collect::<Vec<_>>(),
        vec![Rev(5), Rev(4), Rev(3), Rev(2), Rev(1)]
    );
}

#[test]
fn intersection_returns_common_items() {
    let left = Constant::<_, Forwards>::new(vec![Rev(5), Rev(4), Rev(3), Rev(1)]);
    let right = Constant::<_, Forwards>::new(vec![Rev(6), Rev(4), Rev(3), Rev(2)]);
    let mut intersection = left.intersection(right);

    assert_eq!(
        intersection.iter().collect::<Vec<_>>(),
        vec![Rev(4), Rev(3)]
    );
}

#[test]
fn intersection_preserves_backwards_ordering() {
    let left = Constant::<_, Backwards>::new(vec![Rev(5), Rev(4), Rev(3), Rev(1)]);
    let right = Constant::<_, Backwards>::new(vec![Rev(6), Rev(4), Rev(3), Rev(2)]);
    let mut intersection = left.intersection(right);

    assert_eq!(
        intersection.iter().collect::<Vec<_>>(),
        vec![Rev(3), Rev(4)]
    );
}

#[test]
fn difference_returns_left_items_missing_from_right() {
    let left = Constant::<_, Forwards>::new(vec![Rev(5), Rev(4), Rev(3), Rev(2), Rev(1)]);
    let right = Constant::<_, Forwards>::new(vec![Rev(6), Rev(4), Rev(2)]);
    let mut difference = left.difference(right);

    assert_eq!(
        difference.iter().collect::<Vec<_>>(),
        vec![Rev(5), Rev(3), Rev(1)]
    );
}

#[test]
fn difference_preserves_backwards_ordering() {
    let left = Constant::<_, Backwards>::new(vec![Rev(5), Rev(4), Rev(3), Rev(2), Rev(1)]);
    let right = Constant::<_, Backwards>::new(vec![Rev(6), Rev(4), Rev(2)]);
    let mut difference = left.difference(right);

    assert_eq!(
        difference.iter().collect::<Vec<_>>(),
        vec![Rev(1), Rev(3), Rev(5)]
    );
}

#[test]
fn filter_keeps_matching_items() {
    let input = Constant::<_, Forwards>::new(vec![Rev(5), Rev(4), Rev(3), Rev(2), Rev(1)]);
    let mut filter = input.filter(|rev: &Rev| rev.0 % 2 == 0);

    assert_eq!(filter.iter().collect::<Vec<_>>(), vec![Rev(4), Rev(2)]);
}

#[test]
fn merge_join_matches_equal_keys() {
    let left = Constant::<_, Forwards>::new(vec![
        (Rev(3), "a"),
        (Rev(2), "b"),
        (Rev(2), "c"),
        (Rev(1), "d"),
    ]);
    let right = Constant::<_, Forwards>::new(vec![
        (Rev(2), 10),
        (Rev(2), 20),
        (Rev(1), 30),
        (Rev(0), 40),
    ]);
    let mut join: MergeJoin<_, _, _, _, _, Forwards> = MergeJoin::new(left, right);

    assert_eq!(
        join.iter().collect::<Vec<_>>(),
        vec![
            (Rev(2), "b", 10),
            (Rev(2), "b", 20),
            (Rev(2), "c", 10),
            (Rev(2), "c", 20),
            (Rev(1), "d", 30),
        ]
    );
}

#[test]
fn map_transforms_items() {
    let input = Constant::<_, Forwards>::new(vec![Rev(3), Rev(2), Rev(1)]);
    let mut map = input.map(|rev: Rev| rev.0);

    assert_eq!(map.iter().collect::<Vec<_>>(), vec![3, 2, 1]);
}

#[test]
fn dagrange_returns_descendants_of_x_that_reach_y() {
    let edges = Index::<_, Backwards>::new(vec![
        (Rev(1), Rev(2)),
        (Rev(2), Rev(3)),
        (Rev(2), Rev(4)),
        (Rev(3), Rev(5)),
        (Rev(4), Rev(5)),
        (Rev(8), Rev(9)),
    ]);
    let ancestors = Index::<_, Forwards>::new(vec![
        (Rev(2), Rev(1)),
        (Rev(3), Rev(2)),
        (Rev(4), Rev(2)),
        (Rev(5), Rev(3)),
        (Rev(5), Rev(4)),
        (Rev(9), Rev(8)),
    ]);
    let x = Constant::<_, Forwards>::new(vec![Rev(2)]);
    let y = Constant::<_, Forwards>::new(vec![Rev(5)]);
    let mut range = x.range(y, &edges, &ancestors);

    assert_eq!(
        range.iter().collect::<Vec<_>>(),
        vec![Rev(2), Rev(3), Rev(4), Rev(5)]
    );
}

#[test]
fn dagrange_accepts_any_input_ordering() {
    let edges = Index::<_, Backwards>::new(vec![
        (Rev(1), Rev(2)),
        (Rev(2), Rev(3)),
        (Rev(2), Rev(4)),
        (Rev(3), Rev(5)),
        (Rev(4), Rev(5)),
    ]);
    let ancestors = Index::<_, Forwards>::new(vec![
        (Rev(2), Rev(1)),
        (Rev(3), Rev(2)),
        (Rev(4), Rev(2)),
        (Rev(5), Rev(3)),
        (Rev(5), Rev(4)),
    ]);
    let x = Constant::<_, Backwards>::new(vec![Rev(2)]);
    let y = Constant::<_, Unordered>::new(vec![Rev(5)]);
    let mut range = x.range(y, &edges, &ancestors);

    assert_eq!(
        range.iter().collect::<Vec<_>>(),
        vec![Rev(2), Rev(3), Rev(4), Rev(5)]
    );
}

#[test]
fn dagrange_preserves_backwards_order_with_multiple_starts() {
    let descendants =
        Index::<_, Backwards>::new(vec![(Rev(1), Rev(2)), (Rev(2), Rev(4)), (Rev(3), Rev(4))]);
    let ancestors =
        Index::<_, Forwards>::new(vec![(Rev(2), Rev(1)), (Rev(4), Rev(2)), (Rev(4), Rev(3))]);
    let x = Constant::<_, Backwards>::new(vec![Rev(1), Rev(3)]);
    let y = Constant::<_, Backwards>::new(vec![Rev(4)]);
    let mut range = x.range(y, &descendants, &ancestors);

    assert_eq!(
        range.iter().collect::<Vec<_>>(),
        vec![Rev(1), Rev(2), Rev(3), Rev(4)]
    );
}

#[test]
fn dagrange_orders_reached_children_backwards() {
    let descendants =
        Index::<_, Backwards>::new(vec![(Rev(1), Rev(2)), (Rev(1), Rev(4)), (Rev(2), Rev(3))]);
    let ancestors =
        Index::<_, Forwards>::new(vec![(Rev(2), Rev(1)), (Rev(4), Rev(1)), (Rev(3), Rev(2))]);
    let x = Constant::<_, Backwards>::new(vec![Rev(1)]);
    let y = Constant::<_, Backwards>::new(vec![Rev(3), Rev(4)]);
    let mut range = x.range(y, &descendants, &ancestors);

    assert_eq!(
        range.iter().collect::<Vec<_>>(),
        vec![Rev(1), Rev(2), Rev(3), Rev(4)]
    );
}

#[test]
fn dagrange_is_empty_when_y_is_not_below_x() {
    let edges = Index::<_, Backwards>::new(vec![(Rev(4), Rev(5)), (Rev(2), Rev(3))]);
    let ancestors = Index::<_, Forwards>::new(vec![(Rev(5), Rev(4)), (Rev(3), Rev(2))]);
    let x = Constant::<_, Forwards>::new(vec![Rev(5)]);
    let y = Constant::<_, Forwards>::new(vec![Rev(2)]);
    let mut range = x.range(y, &edges, &ancestors);

    assert_eq!(range.iter().collect::<Vec<_>>(), vec![]);
}
