use mesh::next_id::NextId;

#[test]
fn next_id_counts_from_zero() {
    let mut counter = NextId::new();
    assert_eq!(counter.next(), 0);
    assert_eq!(counter.next(), 1);
    assert_eq!(counter.next(), 2);
    assert_eq!(counter.peek(), 3);
    assert_eq!(counter.peek(), 3);
    assert_eq!(counter.next(), 3);
}
