use mb_tool::range_array::{RangeArray, Span};

fn sp(start: i64, end: i64) -> Span<i64> {
    Span { start, end }
}

#[test]
fn range_array_test() {
    let mut a: RangeArray<i64> = RangeArray::new();
    a.union(&sp(2, 3));
    assert_eq!(a.spans(), &vec![sp(2, 3)]);
    a.union(&sp(0, 2));
    assert_eq!(a.spans(), &vec![sp(0, 3)]);
    a.union(&sp(-3, -1));
    assert_eq!(a.spans(), &vec![sp(-3, -1), sp(0, 3)]);
    a.union(&sp(-1, 0));
    assert_eq!(a.spans(), &vec![sp(-3, 3)]);
    a.union(&sp(5, 7));
    assert_eq!(a.spans(), &vec![sp(-3, 3), sp(5, 7)]);
    a.union(&sp(4, 6));
    assert_eq!(a.spans(), &vec![sp(-3, 3), sp(4, 7)]);
    a.union(&sp(2, 6));
    assert_eq!(a.spans(), &vec![sp(-3, 7)]);
    a.union(&sp(-7, -6));
    a.union(&sp(9, 12));
    a.union(&sp(-6, 10));
    assert_eq!(a.spans(), &vec![sp(-7, 12)]);
}

#[test]
fn range_array_empty_interval_is_ignored() {
    let mut a: RangeArray<u16> = RangeArray::new();
    assert!(a.is_empty());
    a.union(&Span { start: 5u16, end: 5u16 });
    assert!(a.is_empty());
    a.union(&Span { start: 5u16, end: 6u16 });
    assert!(!a.is_empty());
    assert_eq!(a.spans(), &vec![Span { start: 5u16, end: 6u16 }]);
}

#[test]
fn range_array_clear_into_drains() {
    let mut a: RangeArray<usize> = RangeArray::new();
    a.union(&Span { start: 1usize, end: 4usize });
    a.union(&Span { start: 8usize, end: 9usize });
    let taken = a.clear_into();
    assert!(a.is_empty());
    assert!(!taken.is_empty());
    assert_eq!(
        taken.spans(),
        &vec![Span { start: 1usize, end: 4usize }, Span { start: 8usize, end: 9usize }]
    );
}

#[test]
fn range_array_touching_intervals_merge() {
    let mut a: RangeArray<u16> = RangeArray::new();
    a.union(&Span { start: 0u16, end: 2u16 });
    a.union(&Span { start: 2u16, end: 4u16 });
    assert_eq!(a.spans(), &vec![Span { start: 0u16, end: 4u16 }]);
    // a gap of one address stays a gap
    a.union(&Span { start: 5u16, end: 6u16 });
    assert_eq!(
        a.spans(),
        &vec![Span { start: 0u16, end: 4u16 }, Span { start: 5u16, end: 6u16 }]
    );
}

#[test]
fn insertion_order_does_not_matter() {
    // the stored sequence is canonical: it depends on the covered set alone
    let inputs = [sp(5, 9), sp(0, 2), sp(8, 12), sp(2, 3)];
    let mut a: RangeArray<i64> = RangeArray::new();
    for r in inputs.iter() {
        a.union(r);
    }
    let mut b: RangeArray<i64> = RangeArray::new();
    for r in inputs.iter().rev() {
        b.union(r);
    }
    assert_eq!(a.spans(), b.spans());
    assert_eq!(a.spans(), &vec![sp(0, 3), sp(5, 12)]);
}
