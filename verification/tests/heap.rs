use pythagorean_triples::heap::TripleHeap;

#[test]
fn new_heap_is_empty() {
    let mut heap = TripleHeap::new();
    assert!(heap.is_empty());
    assert_eq!(heap.len(), 0);
    assert_eq!(heap.peek(), None);
    assert_eq!(heap.pop(), None);
    assert!(heap.is_empty());
}

#[test]
fn pop_gives_the_least_hypotenuse_first() {
    let mut heap = TripleHeap::new();
    heap.push((20, 21, 29));
    heap.push((5, 12, 13));
    heap.push((8, 15, 17));
    assert_eq!(heap.len(), 3);
    assert_eq!(heap.peek(), Some((5, 12, 13)));
    assert_eq!(heap.len(), 3);
    assert_eq!(heap.pop(), Some((5, 12, 13)));
    assert_eq!(heap.pop(), Some((8, 15, 17)));
    assert_eq!(heap.len(), 1);
    assert!(!heap.is_empty());
    assert_eq!(heap.pop(), Some((20, 21, 29)));
    assert_eq!(heap.pop(), None);
}

#[test]
fn equal_hypotenuses_leave_by_first_leg() {
    let mut heap = TripleHeap::new();
    heap.push((33, 56, 65));
    heap.push((16, 63, 65));
    heap.push((48, 55, 73));
    heap.push((11, 60, 61));
    assert_eq!(heap.pop(), Some((11, 60, 61)));
    assert_eq!(heap.pop(), Some((16, 63, 65)));
    assert_eq!(heap.pop(), Some((33, 56, 65)));
    assert_eq!(heap.pop(), Some((48, 55, 73)));
}

#[test]
fn a_triple_put_in_twice_comes_out_twice() {
    let mut heap = TripleHeap::new();
    heap.push((3, 4, 5));
    heap.push((3, 4, 5));
    assert_eq!(heap.len(), 2);
    assert_eq!(heap.pop(), Some((3, 4, 5)));
    assert_eq!(heap.pop(), Some((3, 4, 5)));
    assert_eq!(heap.pop(), None);
}

#[test]
fn many_entries_come_out_in_order() {
    let mut heap = TripleHeap::new();
    let mut x: i64 = 12345;
    let mut keys = Vec::new();
    for _ in 0..5_000 {
        x = (x * 1_103_515_245 + 12_345) % 2_147_483_648;
        let c = x % 1_000;
        x = (x * 1_103_515_245 + 12_345) % 2_147_483_648;
        let a = x % 1_000;
        heap.push((a, 0, c));
        keys.push((c, a));
    }
    keys.sort();
    for key in keys {
        let t = heap.pop().unwrap();
        assert_eq!((t.2, t.0), key);
    }
    assert!(heap.is_empty());
}

#[test]
fn pushes_and_pops_interleave() {
    let mut heap = TripleHeap::new();
    heap.push((0, 0, 5));
    heap.push((0, 0, 3));
    assert_eq!(heap.pop(), Some((0, 0, 3)));
    heap.push((0, 0, 1));
    heap.push((0, 0, 4));
    assert_eq!(heap.pop(), Some((0, 0, 1)));
    assert_eq!(heap.pop(), Some((0, 0, 4)));
    heap.push((0, 0, 2));
    assert_eq!(heap.pop(), Some((0, 0, 2)));
    assert_eq!(heap.pop(), Some((0, 0, 5)));
    assert_eq!(heap.len(), 0);
}
