use first_follow::ring::Ring;

#[test]
fn test_ring_2() {
    let mut ring = Ring::<i8, 2>::new();
    ring.push(1);
    ring.push(2);
    assert_eq!(ring[0], 1);
    assert_eq!(ring[1], 2);
    ring.push(3);
    assert_eq!(ring[0], 2);
    assert_eq!(ring[1], 3);
}

#[test]
fn ring_test_ring() {
    let mut ring = Ring::<i8, 3>::new();
    ring.push(1);
    ring.push(2);
    ring.push(3);
    assert_eq!(ring[0], 1);
    assert_eq!(ring[1], 2);
    assert_eq!(ring[2], 3);
    ring.push(4);
    assert_eq!(ring[0], 2);
    assert_eq!(ring[1], 3);
    assert_eq!(ring[2], 4);
}

#[test]
fn ring_starts_with_defaults_and_reads_oldest_first() {
    let mut ring = Ring::<u8, 3>::new();
    assert_eq!(ring.data(), [0, 0, 0]);
    ring.push(7);
    assert_eq!(ring.data(), [0, 0, 7]);
    ring.push(8);
    ring.push(9);
    ring.push(10);
    assert_eq!(ring.data(), [8, 9, 10]);
    let refs: Vec<u8> = ring.iter().into_iter().copied().collect();
    assert_eq!(refs, vec![8, 9, 10]);
}

#[test]
fn ring_get_out_of_range_is_none() {
    let mut ring = Ring::<i8, 2>::new();
    ring.push(5);
    assert_eq!(ring.get(1), Some(&5));
    assert_eq!(ring.get(2), None);
}
