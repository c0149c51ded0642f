use algograph::knapsack::knapsack;
use algograph::knapsack::KanpsackItem;

#[test]
fn minimal_case() {
    let copasity = 6;
    let size = 4;
    let items = vec![
        KanpsackItem::new(3, 4),
        KanpsackItem::new(2, 3),
        KanpsackItem::new(4, 2),
        KanpsackItem::new(4, 3),
    ];
    assert_eq!(knapsack(&items, copasity, size), 8);
}

#[test]
fn knapsack_zero_capacity_takes_nothing() {
    let items = vec![KanpsackItem::new(3, 1), KanpsackItem::new(5, 2)];
    assert_eq!(knapsack(&items, 0, 2), 0);
}

#[test]
fn knapsack_prefix_of_items() {
    // only the first item may be used
    let items = vec![KanpsackItem::new(3, 1), KanpsackItem::new(100, 1)];
    assert_eq!(knapsack(&items, 10, 1), 3);
    assert_eq!(knapsack(&items, 10, 2), 103);
}
